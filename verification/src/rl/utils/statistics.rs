//! The per-episode record of a training run: whether each episode reached
//! the goal, and named metrics of it. The metrics' values are of any type
//! (the learning algorithms record `f32`).
use vstd::prelude::*;

verus! {

/// The record of one episode.
#[derive(Clone, Debug)]
pub struct StatPoint<V> {
    pub episode: u32,
    pub completed: bool,
    pub values: Vec<(String, V)>,
}

/// Some metric of `values` is called `name`.
pub open spec fn has_metric<V>(values: Seq<(String, V)>, name: Seq<char>) -> bool {
    exists|i: int| 0 <= i < values.len() && (#[trigger] values[i]).0@ == name
}

/// `i` is the first metric of `values` called `name`.
pub open spec fn first_metric<V>(values: Seq<(String, V)>, name: Seq<char>, i: int) -> bool {
    &&& 0 <= i < values.len()
    &&& values[i].0@ == name
    &&& forall|j: int| 0 <= j < i ==> (#[trigger] values[j]).0@ != name
}

/// The value of the first metric of `values` called `name`, if there is one.
pub open spec fn metric_value<V>(values: Seq<(String, V)>, name: Seq<char>) -> Option<V> {
    if has_metric(values, name) {
        let i = choose|i: int| first_metric(values, name, i);
        Some(values[i].1)
    } else {
        None
    }
}

proof fn lemma_first_metric_unique<V>(values: Seq<(String, V)>, name: Seq<char>, i: int, j: int)
    requires
        first_metric(values, name, i),
        first_metric(values, name, j),
    ensures
        i == j,
{
    if i < j {
        assert(values[i].0@ != name);
    } else if j < i {
        assert(values[j].0@ != name);
    }
}

proof fn lemma_metric_value<V>(values: Seq<(String, V)>, name: Seq<char>, i: int)
    requires
        first_metric(values, name, i),
    ensures
        metric_value(values, name) == Some(values[i].1),
{
    assert(has_metric(values, name));
    let k = choose|k: int| first_metric(values, name, k);
    lemma_first_metric_unique(values, name, i, k);
}

impl<V: Copy> StatPoint<V> {
    pub fn new(episode: u32, completed: bool, values: Vec<(String, V)>) -> (p: StatPoint<V>)
        ensures
            p.episode == episode,
            p.completed == completed,
            p.values == values,
    {
        StatPoint { episode, completed, values }
    }

    /// The value of the first metric called `name`.
    pub fn get(&self, name: &str) -> (r: Option<V>)
        ensures
            r == metric_value(self.values@, name@),
    {
        let key = name.to_owned();
        let mut i: usize = 0;
        while i < self.values.len()
            invariant
                0 <= i <= self.values@.len(),
                key@ == name@,
                forall|j: int| 0 <= j < i ==> (#[trigger] self.values@[j]).0@ != name@,
            decreases self.values@.len() - i,
        {
            if self.values[i].0 == key {
                proof {
                    lemma_metric_value(self.values@, name@, i as int);
                }
                return Some(self.values[i].1);
            }
            i = i + 1;
        }
        proof {
            assert(!has_metric(self.values@, name@));
        }
        None
    }
}

/// The records of all the episodes of a run, in order.
#[derive(Clone, Default)]
pub struct Statistics<V> {
    pub history: Vec<StatPoint<V>>,
}

/// The index of the last point of `history` that records `name`, or -1.
pub open spec fn last_with_metric<V>(history: Seq<StatPoint<V>>, name: Seq<char>) -> int
    decreases history.len(),
{
    if history.len() == 0 {
        -1
    } else if has_metric(history.last().values@, name) {
        history.len() - 1
    } else {
        last_with_metric(history.drop_last(), name)
    }
}

proof fn lemma_last_with_metric<V>(history: Seq<StatPoint<V>>, name: Seq<char>)
    ensures
        -1 <= last_with_metric(history, name) < history.len(),
        last_with_metric(history, name) >= 0 ==> has_metric(
            history[last_with_metric(history, name)].values@,
            name,
        ),
        forall|i: int|
            last_with_metric(history, name) < i < history.len() ==> !has_metric(
                #[trigger] history[i].values@,
                name,
            ),
    decreases history.len(),
{
    if history.len() > 0 && !has_metric(history.last().values@, name) {
        lemma_last_with_metric(history.drop_last(), name);
        assert forall|i: int|
            last_with_metric(history, name) < i < history.len() implies !has_metric(
            #[trigger] history[i].values@,
            name,
        ) by {
            if i < history.len() - 1 {
                assert(history[i] == history.drop_last()[i]);
            }
        }
    }
}

impl<V: Copy> Statistics<V> {
    /// Records an episode; it gets the next episode number.
    pub fn push(&mut self, completed: bool, values: Vec<(String, V)>)
        ensures
            final(self).history@ == old(self).history@.push(
                StatPoint { episode: old(self).history@.len() as u32, completed, values },
            ),
    {
        let episode = self.history.len() as u32;
        self.history.push(StatPoint::new(episode, completed, values));
    }

    /// The value of `metric` in the last episode, if it recorded one.
    pub fn last_value(&self, metric: &str) -> (r: Option<V>)
        ensures
            r == (if self.history@.len() == 0 {
                None
            } else {
                metric_value(self.history@.last().values@, metric@)
            }),
    {
        if self.history.len() == 0 {
            None
        } else {
            self.history[self.history.len() - 1].get(metric)
        }
    }

    /// Whether the last episode reached the goal.
    pub fn last_completed(&self) -> (r: Option<bool>)
        ensures
            r == (if self.history@.len() == 0 {
                None
            } else {
                Some(self.history@.last().completed)
            }),
    {
        if self.history.len() == 0 {
            None
        } else {
            Some(self.history[self.history.len() - 1].completed)
        }
    }

    /// Adds `(metric, value)` to the latest episodes that do not record
    /// `metric` yet: walking back from the last episode, up to the first one
    /// that records it.
    pub fn add_metric_to_previous(&mut self, metric: String, value: V)
        ensures
            final(self).history@.len() == old(self).history@.len(),
            forall|i: int|
                0 <= i < old(self).history@.len() ==> {
                    let p = #[trigger] final(self).history@[i];
                    let q = old(self).history@[i];
                    &&& p.episode == q.episode
                    &&& p.completed == q.completed
                    &&& p.values@ == if i > last_with_metric(old(self).history@, metric@) {
                        q.values@.push((metric, value))
                    } else {
                        q.values@
                    }
                },
    {
        let ghost old_history = self.history@;
        let ghost last = last_with_metric(old_history, metric@);
        proof {
            lemma_last_with_metric(old_history, metric@);
        }
        let mut i: usize = self.history.len();
        while i > 0
            invariant
                0 <= i <= old_history.len(),
                self.history@.len() == old_history.len(),
                last == last_with_metric(old_history, metric@),
                -1 <= last < old_history.len(),
                last >= 0 ==> has_metric(old_history[last].values@, metric@),
                forall|j: int| last < j < old_history.len() ==> !has_metric(
                    #[trigger] old_history[j].values@,
                    metric@,
                ),
                i > last,
                forall|j: int|
                    0 <= j < old_history.len() ==> {
                        let p = #[trigger] self.history@[j];
                        let q = old_history[j];
                        &&& p.episode == q.episode
                        &&& p.completed == q.completed
                        &&& p.values@ == if j >= i {
                            q.values@.push((metric, value))
                        } else {
                            q.values@
                        }
                    },
            ensures
                i == 0 || i == last + 1,
            decreases i,
        {
            let k = i - 1;
            if self.history[k].get(metric.as_str()).is_some() {
                proof {
                    assert(self.history@[k as int].values@ == old_history[k as int].values@);
                    assert(has_metric(old_history[k as int].values@, metric@));
                    assert(k as int == last);
                }
                break;
            }
            proof {
                assert(self.history@[k as int].values@ == old_history[k as int].values@);
                assert(!has_metric(old_history[k as int].values@, metric@)) by {
                    if has_metric(old_history[k as int].values@, metric@) {
                        let m = choose|m: int| first_metric(old_history[k as int].values@, metric@, m);
                        assert(has_metric(old_history[k as int].values@, metric@));
                    }
                }
            }
            let mut point = StatPoint::new(0, false, Vec::new());
            self.history.set_and_swap(k, &mut point);
            point.values.push((metric.clone(), value));
            self.history.set_and_swap(k, &mut point);
            i = k;
        }
    }
}

/// What is pushed is read back: right after an episode is recorded, the
/// last value of a metric is the one the episode recorded.
pub proof fn lemma_last_value_after_push<V>(
    before: Seq<StatPoint<V>>,
    after: Seq<StatPoint<V>>,
    completed: bool,
    values: Vec<(String, V)>,
    name: Seq<char>,
)
    requires
        after == before.push(StatPoint { episode: before.len() as u32, completed, values }),
    ensures
        after.len() > 0,
        metric_value(after.last().values@, name) == metric_value(values@, name),
        after.last().completed == completed,
{
}

/// After a metric is added to the previous episodes, the last episode
/// records it.
pub proof fn lemma_added_metric_recorded_last<V>(
    before: Seq<StatPoint<V>>,
    after: Seq<StatPoint<V>>,
    metric: String,
    value: V,
)
    requires
        before.len() > 0,
        after.len() == before.len(),
        forall|i: int|
            0 <= i < before.len() ==> {
                let p = #[trigger] after[i];
                let q = before[i];
                &&& p.values@ == if i > last_with_metric(before, metric@) {
                    q.values@.push((metric, value))
                } else {
                    q.values@
                }
            },
    ensures
        has_metric(after.last().values@, metric@),
{
    lemma_last_with_metric(before, metric@);
    let n = before.len() - 1;
    let p = after[n];
    if n > last_with_metric(before, metric@) {
        assert(p.values@[p.values@.len() - 1] == (metric, value));
    } else {
        assert(p.values@ == before[n].values@);
    }
}

/**************************************************************
                Grouping and combining runs
**************************************************************/

/// How many consecutive episodes each plotted point stands for when `len`
/// episodes are drawn as (about) `n_buckets` points: `len / n_buckets`
/// rounded up, and at least one.
pub open spec fn bucket_size(len: int, n_buckets: int) -> int {
    let s = (len + n_buckets - 1) / n_buckets;
    if s < 1 {
        1
    } else {
        s
    }
}

/// `a / b` rounded up.
pub open spec fn ceil_div(a: int, b: int) -> int {
    (a + b - 1) / b
}

/// `min(a, b)`
pub open spec fn min_int(a: int, b: int) -> int {
    if a <= b {
        a
    } else {
        b
    }
}

proof fn lemma_ceil_div_exact(a: int, b: int, q: int)
    requires
        0 < b,
        0 <= a,
        0 <= q,
        (q - 1) * b < a <= q * b || (a == 0 && q == 0),
    ensures
        ceil_div(a, b) == q,
{
    assert(a + b - 1 == q * b + (a + b - 1 - q * b)) by (nonlinear_arith);
    assert(0 <= a + b - 1 - q * b < b) by (nonlinear_arith)
        requires
            0 < b,
            (q - 1) * b < a <= q * b || (a == 0 && q == 0),
    ;
    vstd::arithmetic::div_mod::lemma_fundamental_div_mod_converse(
        a + b - 1,
        b,
        q,
        a + b - 1 - q * b,
    );
}

/// The bucket size is the smallest that fits a run of `len` episodes into
/// `n_buckets` buckets: `n_buckets` buckets of it hold the whole run, one
/// fewer episode per bucket would not, and the run makes no more than
/// `n_buckets` buckets.
pub proof fn lemma_bucket_size_fits(len: int, n_buckets: int)
    requires
        0 <= len,
        1 <= n_buckets,
    ensures
        bucket_size(len, n_buckets) >= 1,
        bucket_size(len, n_buckets) * n_buckets >= len,
        len > 0 ==> (bucket_size(len, n_buckets) - 1) * n_buckets < len,
        ceil_div(len, bucket_size(len, n_buckets)) <= n_buckets,
{
    let n = n_buckets;
    let q = (len + n - 1) / n;
    let r = (len + n - 1) % n;
    vstd::arithmetic::div_mod::lemma_fundamental_div_mod(len + n - 1, n);
    assert(q * n >= len && (q - 1) * n < len) by (nonlinear_arith)
        requires
            len + n - 1 == n * q + r,
            0 <= r < n,
    ;
    let s = bucket_size(len, n);
    if q < 1 {
        assert(len == 0) by (nonlinear_arith)
            requires
                q * n >= len,
                (q - 1) * n < len,
                q < 1,
                0 <= len,
                1 <= n,
        ;
    }
    assert(s * n >= len);
    let c = (len + s - 1) / s;
    vstd::arithmetic::div_mod::lemma_fundamental_div_mod(len + s - 1, s);
    assert(c <= n) by (nonlinear_arith)
        requires
            len + s - 1 == s * c + (len + s - 1) % s,
            0 <= (len + s - 1) % s,
            s * n >= len,
            s >= 1,
    ;
}

/// `range` is the `k`-th bucket of `size` episodes of a run of `len`:
/// `k * size..min((k + 1) * size, len)`.
pub open spec fn is_bucket(range: (usize, usize), k: int, size: int, len: int) -> bool {
    &&& range.0 == k * size
    &&& range.1 == min_int((k + 1) * size, len)
}

proof fn lemma_bucket_bounds(k: int, count: int, size: int, len: int)
    requires
        1 <= size,
        0 <= k < count,
        (count - 1) * size < len,
    ensures
        k * size < min_int((k + 1) * size, len),
        k * size < len,
        k > 0 ==> min_int(k * size, len) == k * size,
        k == count - 1 && len <= count * size ==> min_int((k + 1) * size, len) == len,
{
    assert(k * size <= (count - 1) * size) by (nonlinear_arith)
        requires
            k <= count - 1,
            1 <= size,
    ;
    assert(k * size < (k + 1) * size) by (nonlinear_arith)
        requires
            1 <= size,
    ;
}

/// The episode ranges `start..end` of the points a run of `len` episodes is
/// plotted as: consecutive runs of [`bucket_size`] episodes, the last one
/// possibly shorter. They are never empty and cover `0..len` in order.
pub fn bucket_ranges(len: usize, n_buckets: usize) -> (r: Vec<(usize, usize)>)
    requires
        n_buckets >= 1,
    ensures
        r@.len() == ceil_div(len as int, bucket_size(len as int, n_buckets as int)),
        forall|k: int|
            0 <= k < r@.len() ==> is_bucket(
                #[trigger] r@[k],
                k,
                bucket_size(len as int, n_buckets as int),
                len as int,
            ),
        len > 0 ==> r@.len() > 0 && r@[0].0 == 0 && r@.last().1 == len,
        r@.len() <= n_buckets,
        forall|k: int| 0 <= k < r@.len() ==> (#[trigger] r@[k]).0 < r@[k].1,
        forall|k: int| 0 < k < r@.len() ==> (#[trigger] r@[k]).0 == r@[k - 1].1,
{
    let ghost d = len as int / n_buckets as int;
    let ghost m = len as int % n_buckets as int;
    proof {
        vstd::arithmetic::div_mod::lemma_fundamental_div_mod(len as int, n_buckets as int);
        if n_buckets == 1 {
            assert(m == 0);
        } else {
            assert(d + 1 <= usize::MAX) by (nonlinear_arith)
                requires
                    len == n_buckets * d + m,
                    0 <= m,
                    2 <= n_buckets,
                    len <= usize::MAX,
                    0 <= d,
            ;
        }
    }
    let extra: usize = if len % n_buckets != 0 {
        1
    } else {
        0
    };
    proof {
        if n_buckets == 1 {
            assert(m == 0);
        }
    }
    let rounded_up = len / n_buckets + extra;
    proof {
        assert((rounded_up - 1) * n_buckets < len <= rounded_up * n_buckets || (len == 0
            && rounded_up == 0)) by (nonlinear_arith)
            requires
                len == n_buckets * d + m,
                0 <= m < n_buckets,
                1 <= n_buckets,
                rounded_up == d + extra,
                extra == (if m != 0 {
                    1int
                } else {
                    0int
                }),
                0 <= d,
        ;
        lemma_ceil_div_exact(len as int, n_buckets as int, rounded_up as int);
    }
    let size = if rounded_up < 1 {
        1
    } else {
        rounded_up
    };
    let ghost sz = bucket_size(len as int, n_buckets as int);
    assert(size == sz);
    let mut r: Vec<(usize, usize)> = Vec::new();
    let mut start: usize = 0;
    let mut k: usize = 0;
    while start < len
        invariant
            size == sz,
            size >= 1,
            r@.len() == k,
            k <= start,
            start == min_int(k * sz, len as int),
            k > 0 ==> (k - 1) * sz < len,
            forall|j: int| 0 <= j < k ==> is_bucket(#[trigger] r@[j], j, sz, len as int),
        decreases len - start,
    {
        proof {
            assert(start == k * size);
            assert((k + 1) * size == k * size + size) by (nonlinear_arith);
        }
        let end = if len - start > size {
            start + size
        } else {
            len
        };
        r.push((start, end));
        proof {
            assert(is_bucket(r@[k as int], k as int, sz, len as int));
            assert(min_int((k + 1) * sz, len as int) == end);
        }
        start = end;
        k = k + 1;
    }
    proof {
        assert(len <= k * sz);
        if len > 0 {
            lemma_ceil_div_exact(len as int, sz, k as int);
        } else {
            lemma_ceil_div_exact(0, sz, 0);
        }
        assert forall|j: int| 0 <= j < k implies (#[trigger] r@[j]).0 < r@[j].1 by {
            lemma_bucket_bounds(j, k as int, sz, len as int);
        }
        assert forall|j: int| 0 < j < k implies (#[trigger] r@[j]).0 == r@[j - 1].1 by {
            lemma_bucket_bounds(j, k as int, sz, len as int);
        }
        if len > 0 {
            lemma_bucket_bounds(k - 1, k as int, sz, len as int);
        }
        lemma_bucket_size_fits(len as int, n_buckets as int);
    }
    r
}

/// The fewest episodes any of the runs recorded (0 when there are none).
pub open spec fn shortest_run<V>(runs: Seq<Statistics<V>>) -> int
    decreases runs.len(),
{
    if runs.len() == 0 {
        0
    } else if runs.len() == 1 {
        runs[0].history@.len() as int
    } else {
        min_int(shortest_run(runs.drop_last()), runs.last().history@.len() as int)
    }
}

proof fn lemma_shortest_run<V>(runs: Seq<Statistics<V>>)
    requires
        runs.len() > 0,
    ensures
        forall|i: int| 0 <= i < runs.len() ==> shortest_run(runs) <= (#[trigger] runs[i]).history@.len(),
        exists|i: int| 0 <= i < runs.len() && shortest_run(runs) == (#[trigger] runs[i]).history@.len(),
    decreases runs.len(),
{
    if runs.len() == 1 {
        assert(shortest_run(runs) == runs[0].history@.len());
    } else {
        let init = runs.drop_last();
        lemma_shortest_run(init);
        assert forall|i: int| 0 <= i < runs.len() implies shortest_run(runs) <= (
        #[trigger] runs[i]).history@.len() by {
            if i < runs.len() - 1 {
                assert(runs[i] == init[i]);
            }
        }
        if shortest_run(init) <= runs.last().history@.len() {
            let j = choose|j: int| 0 <= j < init.len() && shortest_run(init) == (
            #[trigger] init[j]).history@.len();
            assert(runs[j] == init[j]);
        } else {
            assert(runs[runs.len() - 1] == runs.last());
        }
    }
}

/// The number of episodes several runs all recorded: the length of the
/// shortest run, 0 when there is no run.
pub fn common_length<V>(runs: &Vec<Statistics<V>>) -> (n: usize)
    ensures
        n == shortest_run(runs@),
        runs@.len() == 0 ==> n == 0,
        forall|i: int| 0 <= i < runs@.len() ==> n <= (#[trigger] runs@[i]).history@.len(),
        runs@.len() > 0 ==> exists|i: int|
            0 <= i < runs@.len() && n == (#[trigger] runs@[i]).history@.len(),
{
    if runs.len() == 0 {
        return 0;
    }
    let mut n = runs[0].history.len();
    let mut i: usize = 1;
    while i < runs.len()
        invariant
            1 <= i <= runs@.len(),
            n == shortest_run(runs@.subrange(0, i as int)),
        decreases runs@.len() - i,
    {
        let ghost init = runs@.subrange(0, i as int);
        assert(runs@.subrange(0, i + 1).drop_last() == init);
        let len = runs[i].history.len();
        if len < n {
            n = len;
        }
        i = i + 1;
    }
    proof {
        assert(runs@.subrange(0, runs@.len() as int) == runs@);
        lemma_shortest_run(runs@);
    }
    n
}

/// How many of the runs reached the goal in their episode `i`.
pub open spec fn completed_count<V>(runs: Seq<Statistics<V>>, i: int) -> int
    decreases runs.len(),
{
    if runs.len() == 0 {
        0
    } else {
        completed_count(runs.drop_last(), i) + if runs.last().history@[i].completed {
            1int
        } else {
            0int
        }
    }
}

/// The runs that reached the goal in their episode `i`, by position.
pub open spec fn runs_completing<V>(runs: Seq<Statistics<V>>, i: int) -> Set<int> {
    Set::new(|j: int| 0 <= j < runs.len() && runs[j].history@[i].completed)
}

/// `completed_count` counts the runs that completed episode `i`: it is the
/// number of positions `j` whose run completed it, each run counted once.
pub proof fn lemma_completed_count_counts_runs<V>(runs: Seq<Statistics<V>>, i: int)
    ensures
        runs_completing(runs, i).finite(),
        completed_count(runs, i) == runs_completing(runs, i).len(),
    decreases runs.len(),
{
    if runs.len() == 0 {
        assert(runs_completing(runs, i) =~= Set::<int>::empty());
    } else {
        let n = runs.len() - 1;
        let init = runs.drop_last();
        lemma_completed_count_counts_runs(init, i);
        let before = runs_completing(init, i);
        assert forall|j: int| #[trigger] before.contains(j) <==> (0 <= j < n
            && runs[j].history@[i].completed) by {
            if 0 <= j < n {
                assert(init[j] == runs[j]);
            }
        }
        assert(!before.contains(n));
        if runs.last().history@[i].completed {
            assert(runs_completing(runs, i) =~= before.insert(n));
        } else {
            assert(runs_completing(runs, i) =~= before);
        }
    }
}

/// Whether at least half of the runs reached the goal in their episode `i`.
pub fn mostly_completed<V>(runs: &Vec<Statistics<V>>, i: usize) -> (r: bool)
    requires
        forall|j: int| 0 <= j < runs@.len() ==> i < (#[trigger] runs@[j]).history@.len(),
    ensures
        r == (2 * completed_count(runs@, i as int) >= runs@.len()),
        r == (2 * runs_completing(runs@, i as int).len() >= runs@.len()),
{
    proof {
        lemma_completed_count_counts_runs(runs@, i as int);
    }
    let mut count: usize = 0;
    let mut j: usize = 0;
    while j < runs.len()
        invariant
            0 <= j <= runs@.len(),
            forall|m: int| 0 <= m < runs@.len() ==> i < (#[trigger] runs@[m]).history@.len(),
            count == completed_count(runs@.subrange(0, j as int), i as int),
            count <= j,
        decreases runs@.len() - j,
    {
        assert(runs@.subrange(0, j + 1).drop_last() == runs@.subrange(0, j as int));
        assert(runs@.subrange(0, j + 1).last() == runs@[j as int]);
        if runs[j].history[i].completed {
            count = count + 1;
        }
        j = j + 1;
    }
    assert(runs@.subrange(0, runs@.len() as int) == runs@);
    count as u128 * 2 >= runs.len() as u128
}

/// The values of the metric `name` in the records that have it, in order.
pub open spec fn metric_values_of<V>(points: Seq<StatPoint<V>>, name: Seq<char>) -> Seq<V>
    decreases points.len(),
{
    if points.len() == 0 {
        Seq::empty()
    } else {
        let before = metric_values_of(points.drop_last(), name);
        match metric_value(points.last().values@, name) {
            Some(v) => before.push(v),
            None => before,
        }
    }
}

/// The values of the metric `name` in the records that have it (the first
/// value each records), in order: what a mean of that metric is taken over.
pub fn metric_values<V: Copy>(points: &Vec<StatPoint<V>>, name: &str) -> (r: Vec<V>)
    ensures
        r@ == metric_values_of(points@, name@),
{
    let mut r: Vec<V> = Vec::new();
    let mut i: usize = 0;
    while i < points.len()
        invariant
            0 <= i <= points@.len(),
            r@ == metric_values_of(points@.subrange(0, i as int), name@),
        decreases points@.len() - i,
    {
        assert(points@.subrange(0, i + 1).drop_last() =~= points@.subrange(0, i as int));
        assert(points@.subrange(0, i + 1).last() == points@[i as int]);
        match points[i].get(name) {
            Some(v) => r.push(v),
            None => {},
        }
        i = i + 1;
    }
    assert(points@.subrange(0, points@.len() as int) =~= points@);
    r
}

} // verus!
