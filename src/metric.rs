//! Metric identities and the series records built from one snapshot.
use vstd::prelude::*;

verus! {

/// One `key=value` tag.
pub struct Label {
    pub key: String,
    pub value: String,
}

impl View for Label {
    type V = (Seq<char>, Seq<char>);

    open spec fn view(&self) -> (Seq<char>, Seq<char>) {
        (self.key@, self.value@)
    }
}

impl Label {
    pub fn new(key: String, value: String) -> (r: Label)
        ensures
            r@ == (key@, value@),
    {
        Label { key, value }
    }

    pub fn copy(&self) -> (r: Label)
        ensures
            r@ == self@,
    {
        Label { key: self.key.clone(), value: self.value.clone() }
    }
}

/// The views of a list of labels.
pub open spec fn labels_view(l: Seq<Label>) -> Seq<(Seq<char>, Seq<char>)> {
    l.map_values(|x: Label| x@)
}

/// Copies `from` onto the end of `out`.
pub fn append_labels(out: &mut Vec<Label>, from: &Vec<Label>)
    ensures
        labels_view(final(out)@) == labels_view(old(out)@) + labels_view(from@),
{
    let mut i: usize = 0;
    while i < from.len()
        invariant
            i <= from.len(),
            labels_view(out@) == labels_view(old(out)@) + labels_view(from@.take(i as int)),
        decreases from.len() - i,
    {
        let l = from[i].copy();
        proof {
            assert(labels_view(out@.push(l)) =~= labels_view(out@).push(l@));
            assert(labels_view(from@.take(i + 1)) =~= labels_view(from@.take(i as int)).push(
                from@[i as int]@,
            ));
        }
        out.push(l);
        i = i + 1;
    }
    proof {
        assert(from@.take(i as int) == from@);
    }
}

/// The identity of one instrument: its name and its ordered labels.
pub struct MetricKey {
    pub name: String,
    pub labels: Vec<Label>,
}

impl View for MetricKey {
    type V = (Seq<char>, Seq<(Seq<char>, Seq<char>)>);

    open spec fn view(&self) -> (Seq<char>, Seq<(Seq<char>, Seq<char>)>) {
        (self.name@, labels_view(self.labels@))
    }
}

impl MetricKey {
    pub fn new(name: String, labels: Vec<Label>) -> (r: MetricKey)
        ensures
            r@ == (name@, labels_view(labels@)),
    {
        MetricKey { name, labels }
    }

    pub fn copy(&self) -> (r: MetricKey)
        ensures
            r@ == self@,
    {
        let mut labels: Vec<Label> = Vec::new();
        append_labels(&mut labels, &self.labels);
        proof {
            assert(labels_view(Seq::<Label>::empty()) =~= Seq::empty());
            assert(labels_view(labels@) =~= labels_view(self.labels@));
        }
        MetricKey { name: self.name.clone(), labels }
    }

    /// Whether both keys name the same instrument.
    pub fn same_key(&self, other: &MetricKey) -> (r: bool)
        ensures
            r == (self@ == other@),
    {
        if self.name != other.name || self.labels.len() != other.labels.len() {
            proof {
                if self@ == other@ {
                    assert(labels_view(self.labels@).len() == self.labels@.len());
                }
            }
            return false;
        }
        let mut i: usize = 0;
        while i < self.labels.len()
            invariant
                i <= self.labels.len() == other.labels.len(),
                forall|j: int| 0 <= j < i ==> self.labels@[j]@ == other.labels@[j]@,
            decreases self.labels.len() - i,
        {
            if self.labels[i].key != other.labels[i].key || self.labels[i].value
                != other.labels[i].value {
                proof {
                    if self@ == other@ {
                        assert(labels_view(self.labels@)[i as int] == labels_view(
                            other.labels@,
                        )[i as int]);
                    }
                }
                return false;
            }
            i = i + 1;
        }
        proof {
            assert(labels_view(self.labels@) =~= labels_view(other.labels@));
        }
        true
    }
}


/// The views of the keys of `e`, in order.
pub open spec fn keys_of<T>(e: Seq<(MetricKey, T)>) -> Seq<(Seq<char>, Seq<(Seq<char>, Seq<char>)>)> {
    e.map_values(|x: (MetricKey, T)| x.0@)
}

/// Where the runs of equal consecutive keys start, followed by the length:
/// run `j` is `keys[b[j]..b[j + 1]]`.
pub open spec fn run_bounds<K>(keys: Seq<K>) -> Seq<int>
    decreases keys.len(),
{
    if keys.len() == 0 {
        seq![0]
    } else if keys.len() == 1 {
        seq![0, 1]
    } else {
        let b = run_bounds(keys.drop_last());
        let n = keys.len() as int;
        if keys[n - 1] == keys[n - 2] {
            b.drop_last().push(n)
        } else {
            b.push(n)
        }
    }
}

/// The bounds start at 0, rise strictly and end at the length.
pub proof fn lemma_run_bounds<K>(keys: Seq<K>)
    ensures
        ({
            let b = run_bounds(keys);
            &&& b.len() >= 1
            &&& b[0] == 0
            &&& b.last() == keys.len()
            &&& keys.len() == 0 <==> b.len() == 1
            &&& forall|i: int, j: int| 0 <= i < j < b.len() ==> #[trigger] b[i] < #[trigger] b[j]
            &&& forall|j: int| 0 <= j < b.len() ==> 0 <= #[trigger] b[j] <= keys.len()
        }),
    decreases keys.len(),
{
    if keys.len() > 1 {
        let k = keys.drop_last();
        lemma_run_bounds(k);
        let b = run_bounds(k);
        let n = keys.len() as int;
        if keys[n - 1] == keys[n - 2] {
            let c = b.drop_last().push(n);
            assert forall|i: int, j: int| 0 <= i < j < c.len() implies #[trigger] c[i] < #[trigger] c[j] by {
                assert(c[i] == b[i]);
                if j < c.len() - 1 {
                    assert(c[j] == b[j]);
                }
            }
        } else {
            let c = b.push(n);
            assert forall|i: int, j: int| 0 <= i < j < c.len() implies #[trigger] c[i] < #[trigger] c[j] by {
                assert(c[i] == b[i]);
                if j < c.len() - 1 {
                    assert(c[j] == b[j]);
                }
            }
        }
    }
}

/// Each run holds one key.
pub proof fn lemma_runs_hold_one_key<K>(keys: Seq<K>)
    ensures
        ({
            let b = run_bounds(keys);
            forall|j: int, i: int|
                0 <= j < b.len() - 1 && b[j] <= i < b[j + 1] ==> #[trigger] keys[i] == keys[#[trigger] b[j]]
        }),
    decreases keys.len(),
{
    if keys.len() > 1 {
        let k = keys.drop_last();
        lemma_run_bounds(k);
        lemma_runs_hold_one_key(k);
        let b = run_bounds(k);
        let c = run_bounds(keys);
        let n = keys.len() as int;
        assert forall|j: int, i: int|
            0 <= j < c.len() - 1 && c[j] <= i < c[j + 1] implies #[trigger] keys[i] == keys[#[trigger] c[j]] by {
            assert(c[j] == b[j]);
            if i < n - 1 {
                if j < b.len() - 1 {
                    assert(k[i] == k[b[j]]);
                } else {
                    assert(false);
                }
            } else if keys[n - 1] == keys[n - 2] {
                assert(k[n - 2] == k[b[j]]);
            }
        }
    }
}

/// Two runs side by side hold different keys.
pub proof fn lemma_neighbouring_runs_differ<K>(keys: Seq<K>)
    ensures
        ({
            let b = run_bounds(keys);
            forall|j: int| 0 < j < b.len() - 1 ==> keys[#[trigger] b[j] - 1] != keys[b[j]]
        }),
    decreases keys.len(),
{
    if keys.len() > 1 {
        let k = keys.drop_last();
        lemma_run_bounds(k);
        lemma_neighbouring_runs_differ(k);
        let b = run_bounds(k);
        let c = run_bounds(keys);
        assert forall|j: int| 0 < j < c.len() - 1 implies keys[#[trigger] c[j] - 1] != keys[c[j]] by {
            assert(c[j] == b[j]);
            if j < b.len() - 1 {
                assert(k[b[j] - 1] != k[b[j]]);
            }
        }
    }
}

/// Keys that are all the same form a single run: however many handles or
/// increments, they give one series.
pub proof fn lemma_equal_keys_form_one_run<K>(keys: Seq<K>)
    requires
        keys.len() > 0,
        forall|i: int| 0 <= i < keys.len() ==> #[trigger] keys[i] == keys[0],
    ensures
        run_bounds(keys) == seq![0int, keys.len() as int],
    decreases keys.len(),
{
    if keys.len() > 1 {
        let k = keys.drop_last();
        assert(forall|i: int| 0 <= i < k.len() ==> #[trigger] k[i] == keys[i]);
        lemma_equal_keys_form_one_run(k);
        assert(keys[keys.len() - 1] == keys[keys.len() - 2]);
        assert(seq![0int, k.len() as int].drop_last().push(keys.len() as int) =~= seq![
            0int,
            keys.len() as int,
        ]);
    }
}

/// The positions where runs of equal consecutive keys of `entries` start,
/// followed by the length of `entries`.
pub fn group_bounds<T>(entries: &Vec<(MetricKey, T)>) -> (r: Vec<usize>)
    ensures
        r@.map_values(|x: usize| x as int) == run_bounds(keys_of(entries@)),
{
    let ghost keys = keys_of(entries@);
    let mut r: Vec<usize> = vec![0];
    if entries.len() == 0 {
        proof {
            assert(r@.map_values(|x: usize| x as int) =~= seq![0int]);
        }
        return r;
    }
    let mut i: usize = 1;
    proof {
        assert(keys.take(1).drop_last() =~= Seq::<(Seq<char>, Seq<(Seq<char>, Seq<char>)>)>::empty());
        assert(r@.map_values(|x: usize| x as int).push(1) =~= run_bounds(keys.take(1)));
    }
    while i < entries.len()
        invariant
            1 <= i <= entries.len(),
            keys == keys_of(entries@),
            r@.map_values(|x: usize| x as int).push(i as int) == run_bounds(keys.take(i as int)),
        decreases entries.len() - i,
    {
        let same = entries[i].0.same_key(&entries[i - 1].0);
        let ghost before = r@.map_values(|x: usize| x as int);
        proof {
            let t = keys.take(i + 1);
            assert(t.drop_last() =~= keys.take(i as int));
            assert(t[i as int] == entries@[i as int].0@);
            assert(t[i - 1] == entries@[i - 1].0@);
            assert(before.push(i as int).drop_last() =~= before);
        }
        if !same {
            r.push(i);
            proof {
                assert(r@.map_values(|x: usize| x as int) =~= before.push(i as int));
            }
        }
        i = i + 1;
    }
    proof {
        assert(keys.take(i as int) =~= keys);
    }
    let ghost before = r@.map_values(|x: usize| x as int);
    r.push(entries.len());
    proof {
        assert(r@.map_values(|x: usize| x as int) =~= before.push(i as int));
    }
    r
}


/// The sum of the values, as a mathematical integer.
pub open spec fn total(s: Seq<u64>) -> int
    decreases s.len(),
{
    if s.len() == 0 {
        0
    } else {
        total(s.drop_last()) + s.last()
    }
}

proof fn lemma_total_nonneg(s: Seq<u64>)
    ensures
        total(s) >= 0,
    decreases s.len(),
{
    if s.len() > 0 {
        lemma_total_nonneg(s.drop_last());
    }
}

/// `v`, or the largest `u64` where `v` is larger.
pub open spec fn saturated(v: int) -> u64 {
    if v > u64::MAX {
        u64::MAX
    } else {
        v as u64
    }
}

/// The second parts of `e`, in order.
pub open spec fn values_of<T>(e: Seq<(MetricKey, T)>) -> Seq<T> {
    e.map_values(|x: (MetricKey, T)| x.1)
}

/// All observations of `e`, one entry after the other.
pub open spec fn observations_of(e: Seq<(MetricKey, Vec<u64>)>) -> Seq<u64> {
    e.map_values(|x: (MetricKey, Vec<u64>)| x.1@).flatten()
}

/// What one series point holds. Gauge values and histogram observations are
/// the bit patterns of 64-bit floats.
pub enum MetricValue {
    /// The summed increments of a counter.
    Count(u64),
    /// The value that a gauge was set to last.
    Gauge(u64),
    /// The observations of a histogram since the previous collect.
    Histogram(Vec<u64>),
}

/// One series: an instrument, its tags and one point.
pub struct DataDogMetric {
    pub key: MetricKey,
    pub tags: Vec<Label>,
    pub timestamp: u64,
    pub value: MetricValue,
}

impl DataDogMetric {
    /// The series for `key` with the static `tags` followed by the key's own
    /// labels.
    fn with_value(key: &MetricKey, tags: &Vec<Label>, timestamp: u64, value: MetricValue) -> (r: DataDogMetric)
        ensures
            r.key@ == key@,
            labels_view(r.tags@) == labels_view(tags@) + key@.1,
            r.timestamp == timestamp,
            r.value == value,
    {
        let mut all: Vec<Label> = Vec::new();
        append_labels(&mut all, tags);
        append_labels(&mut all, &key.labels);
        proof {
            assert(labels_view(Seq::<Label>::empty()) =~= Seq::empty());
            assert(Seq::<(Seq<char>, Seq<char>)>::empty() + labels_view(tags@) =~= labels_view(tags@));
        }
        DataDogMetric { key: key.copy(), tags: all, timestamp, value }
    }

    /// A counter series: the sum of the increments, saturating at the
    /// largest `u64`.
    pub fn from_counter(key: &MetricKey, values: &Vec<u64>, tags: &Vec<Label>, timestamp: u64) -> (r: DataDogMetric)
        ensures
            r.key@ == key@,
            labels_view(r.tags@) == labels_view(tags@) + key@.1,
            r.timestamp == timestamp,
            r.value == MetricValue::Count(saturated(total(values@))),
    {
        let mut sum: u64 = 0;
        let mut i: usize = 0;
        while i < values.len()
            invariant
                i <= values.len(),
                sum == saturated(total(values@.take(i as int))),
            decreases values.len() - i,
        {
            proof {
                assert(values@.take(i + 1).drop_last() =~= values@.take(i as int));
                lemma_total_nonneg(values@.take(i as int));
            }
            sum = sum.saturating_add(values[i]);
            i = i + 1;
        }
        proof {
            assert(values@.take(i as int) =~= values@);
        }
        Self::with_value(key, tags, timestamp, MetricValue::Count(sum))
    }

    /// A gauge series: the last value written.
    pub fn from_gauge(key: &MetricKey, values: &Vec<u64>, tags: &Vec<Label>, timestamp: u64) -> (r: DataDogMetric)
        requires
            values.len() > 0,
        ensures
            r.key@ == key@,
            labels_view(r.tags@) == labels_view(tags@) + key@.1,
            r.timestamp == timestamp,
            r.value == MetricValue::Gauge(values@.last()),
    {
        Self::with_value(key, tags, timestamp, MetricValue::Gauge(values[values.len() - 1]))
    }

    /// A histogram series: the observations of every handle, in order.
    pub fn from_histogram(
        key: &MetricKey,
        values: &Vec<Vec<u64>>,
        tags: &Vec<Label>,
        timestamp: u64,
    ) -> (r: DataDogMetric)
        ensures
            r.key@ == key@,
            labels_view(r.tags@) == labels_view(tags@) + key@.1,
            r.timestamp == timestamp,
            r.value matches MetricValue::Histogram(o) && o@ == values@.map_values(|v: Vec<u64>| v@).flatten(),
    {
        let ghost vs = values@.map_values(|v: Vec<u64>| v@);
        let mut all: Vec<u64> = Vec::new();
        let mut i: usize = 0;
        proof {
            assert(vs.take(0) =~= Seq::<Seq<u64>>::empty());
        }
        while i < values.len()
            invariant
                i <= values.len(),
                vs == values@.map_values(|v: Vec<u64>| v@),
                all@ == vs.take(i as int).flatten(),
            decreases values.len() - i,
        {
            let ghost before = all@;
            let mut j: usize = 0;
            while j < values[i].len()
                invariant
                    i < values.len(),
                    j <= values[i as int].len(),
                    all@ == before + values[i as int]@.take(j as int),
                decreases values[i as int].len() - j,
            {
                all.push(values[i][j]);
                j = j + 1;
                proof {
                    assert(values[i as int]@.take(j as int) =~= values[i as int]@.take(j - 1).push(values[i as int]@[j - 1]));
                }
            }
            proof {
                assert(values[i as int]@.take(j as int) =~= values[i as int]@);
                assert(vs.take(i + 1) =~= vs.take(i as int) + seq![vs[i as int]]);
                assert(vs[i as int] == values[i as int]@);
                vstd::seq_lib::lemma_flatten_concat(vs.take(i as int), seq![vs[i as int]]);
                seq![vs[i as int]].lemma_flatten_one_element();
            }
            i = i + 1;
        }
        proof {
            assert(vs.take(i as int) =~= vs);
        }
        Self::with_value(key, tags, timestamp, MetricValue::Histogram(all))
    }

    /// The number of points the series carries: one, or for a histogram the
    /// number of observations it summarises.
    pub fn sample_count(&self) -> (r: usize)
        ensures
            r == match self.value {
                MetricValue::Histogram(o) => o@.len(),
                _ => 1,
            },
    {
        match &self.value {
            MetricValue::Histogram(o) => o.len(),
            _ => 1,
        }
    }
}


/// `m` is the series of the instrument `key`, tagged with `tags` and then
/// the key's labels, at `timestamp`.
pub open spec fn describes(
    m: DataDogMetric,
    key: (Seq<char>, Seq<(Seq<char>, Seq<char>)>),
    tags: Seq<Label>,
    timestamp: u64,
) -> bool {
    &&& m.key@ == key
    &&& labels_view(m.tags@) == labels_view(tags) + key.1
    &&& m.timestamp == timestamp
}

/// `r` holds one counter series per run of equal consecutive keys of
/// `entries`, with the saturated sum of the run's increments.
pub open spec fn counters_from(
    entries: Seq<(MetricKey, u64)>,
    tags: Seq<Label>,
    timestamp: u64,
    r: Seq<DataDogMetric>,
) -> bool {
    let b = run_bounds(keys_of(entries));
    &&& r.len() == b.len() - 1
    &&& forall|j: int|
        0 <= j < r.len() ==> describes(#[trigger] r[j], keys_of(entries)[b[j]], tags, timestamp)
            && r[j].value == MetricValue::Count(
            saturated(total(values_of(entries).subrange(b[j], b[j + 1]))),
        )
}

/// `r` holds one gauge series per run of equal consecutive keys of
/// `entries`, with the run's last value.
pub open spec fn gauges_from(
    entries: Seq<(MetricKey, u64)>,
    tags: Seq<Label>,
    timestamp: u64,
    r: Seq<DataDogMetric>,
) -> bool {
    let b = run_bounds(keys_of(entries));
    &&& r.len() == b.len() - 1
    &&& forall|j: int|
        0 <= j < r.len() ==> describes(#[trigger] r[j], keys_of(entries)[b[j]], tags, timestamp)
            && r[j].value == MetricValue::Gauge(values_of(entries)[b[j + 1] - 1])
}

/// `r` holds one histogram series per run of equal consecutive keys of
/// `entries`, with the observations of the run's handles in order.
pub open spec fn histograms_from(
    entries: Seq<(MetricKey, Vec<u64>)>,
    tags: Seq<Label>,
    timestamp: u64,
    r: Seq<DataDogMetric>,
) -> bool {
    let b = run_bounds(keys_of(entries));
    &&& r.len() == b.len() - 1
    &&& forall|j: int|
        0 <= j < r.len() ==> describes(#[trigger] r[j], keys_of(entries)[b[j]], tags, timestamp)
            && (r[j].value matches MetricValue::Histogram(o) && o@ == observations_of(
            entries.subrange(b[j], b[j + 1]),
        ))
}

/// The values of `entries[lo..hi]`.
fn values_in(entries: &Vec<(MetricKey, u64)>, lo: usize, hi: usize) -> (r: Vec<u64>)
    requires
        lo <= hi <= entries.len(),
    ensures
        r@ == values_of(entries@.subrange(lo as int, hi as int)),
{
    let mut r: Vec<u64> = Vec::new();
    let mut i: usize = lo;
    while i < hi
        invariant
            lo <= i <= hi <= entries.len(),
            r@ == values_of(entries@.subrange(lo as int, i as int)),
        decreases hi - i,
    {
        r.push(entries[i].1);
        i = i + 1;
        proof {
            assert(values_of(entries@.subrange(lo as int, i as int)) =~= values_of(
                entries@.subrange(lo as int, i - 1),
            ).push(entries@[i - 1].1));
        }
    }
    r
}

fn copy_values(v: &Vec<u64>) -> (r: Vec<u64>)
    ensures
        r@ == v@,
{
    let mut r: Vec<u64> = Vec::new();
    let mut i: usize = 0;
    while i < v.len()
        invariant
            i <= v.len(),
            r@ == v@.take(i as int),
        decreases v.len() - i,
    {
        r.push(v[i]);
        i = i + 1;
        proof {
            assert(v@.take(i as int) =~= v@.take(i - 1).push(v@[i - 1]));
        }
    }
    proof {
        assert(v@.take(i as int) =~= v@);
    }
    r
}

/// Copies of the observation lists of `entries[lo..hi]`.
fn observations_in(entries: &Vec<(MetricKey, Vec<u64>)>, lo: usize, hi: usize) -> (r: Vec<Vec<u64>>)
    requires
        lo <= hi <= entries.len(),
    ensures
        r@.map_values(|v: Vec<u64>| v@) == entries@.subrange(lo as int, hi as int).map_values(
            |x: (MetricKey, Vec<u64>)| x.1@,
        ),
{
    let mut r: Vec<Vec<u64>> = Vec::new();
    let mut i: usize = lo;
    while i < hi
        invariant
            lo <= i <= hi <= entries.len(),
            r@.map_values(|v: Vec<u64>| v@) == entries@.subrange(lo as int, i as int).map_values(
                |x: (MetricKey, Vec<u64>)| x.1@,
            ),
        decreases hi - i,
    {
        let c = copy_values(&entries[i].1);
        let ghost before = r@;
        r.push(c);
        i = i + 1;
        proof {
            assert(r@.map_values(|v: Vec<u64>| v@) =~= before.map_values(|v: Vec<u64>| v@).push(
                entries@[i - 1].1@,
            ));
            assert(entries@.subrange(lo as int, i as int).map_values(
                |x: (MetricKey, Vec<u64>)| x.1@,
            ) =~= entries@.subrange(lo as int, i - 1).map_values(
                |x: (MetricKey, Vec<u64>)| x.1@,
            ).push(entries@[i - 1].1@));
        }
    }
    r
}

/// One counter series per run of equal consecutive keys, holding the
/// saturated sum of the run's increments.
pub fn collect_counters(entries: &Vec<(MetricKey, u64)>, tags: &Vec<Label>, timestamp: u64) -> (r: Vec<DataDogMetric>)
    ensures
        counters_from(entries@, tags@, timestamp, r@),
{
    let bounds = group_bounds(entries);
    let ghost b = run_bounds(keys_of(entries@));
    proof {
        lemma_run_bounds(keys_of(entries@));
    }
    let mut r: Vec<DataDogMetric> = Vec::new();
    let mut j: usize = 0;
    while j + 1 < bounds.len()
        invariant
            bounds@.map_values(|x: usize| x as int) == b,
            b == run_bounds(keys_of(entries@)),
            b.len() >= 1,
            b.last() == entries.len(),
            forall|i: int, k: int| 0 <= i < k < b.len() ==> #[trigger] b[i] < #[trigger] b[k],
            forall|k: int| 0 <= k < b.len() ==> 0 <= #[trigger] b[k] <= entries.len(),
            j < bounds.len(),
            r.len() == j,
            forall|k: int|
                0 <= k < j ==> describes(#[trigger] r[k], keys_of(entries@)[b[k]], tags@, timestamp)
                    && r[k].value == MetricValue::Count(
                    saturated(total(values_of(entries@).subrange(b[k], b[k + 1]))),
                ),
        decreases bounds.len() - j,
    {
        let lo = bounds[j];
        let hi = bounds[j + 1];
        proof {
            assert(b[j as int] == lo && b[j + 1] == hi);
            assert(b[j as int] < b[j + 1]);
            if j + 2 < b.len() {
                assert(b[j + 1] < b[j + 2]);
            }
        }
        let vals = values_in(entries, lo, hi);
        let m = DataDogMetric::from_counter(&entries[lo].0, &vals, tags, timestamp);
        proof {
            assert(values_of(entries@.subrange(lo as int, hi as int)) =~= values_of(entries@).subrange(lo as int, hi as int));
        }
        r.push(m);
        j = j + 1;
    }
    r
}

/// One gauge series per run of equal consecutive keys, holding the run's
/// last value.
pub fn collect_gauges(entries: &Vec<(MetricKey, u64)>, tags: &Vec<Label>, timestamp: u64) -> (r: Vec<DataDogMetric>)
    ensures
        gauges_from(entries@, tags@, timestamp, r@),
{
    let bounds = group_bounds(entries);
    let ghost b = run_bounds(keys_of(entries@));
    proof {
        lemma_run_bounds(keys_of(entries@));
    }
    let mut r: Vec<DataDogMetric> = Vec::new();
    let mut j: usize = 0;
    while j + 1 < bounds.len()
        invariant
            bounds@.map_values(|x: usize| x as int) == b,
            b == run_bounds(keys_of(entries@)),
            b.len() >= 1,
            b.last() == entries.len(),
            forall|i: int, k: int| 0 <= i < k < b.len() ==> #[trigger] b[i] < #[trigger] b[k],
            forall|k: int| 0 <= k < b.len() ==> 0 <= #[trigger] b[k] <= entries.len(),
            j < bounds.len(),
            r.len() == j,
            forall|k: int|
                0 <= k < j ==> describes(#[trigger] r[k], keys_of(entries@)[b[k]], tags@, timestamp)
                    && r[k].value == MetricValue::Gauge(values_of(entries@)[b[k + 1] - 1]),
        decreases bounds.len() - j,
    {
        let lo = bounds[j];
        let hi = bounds[j + 1];
        proof {
            assert(b[j as int] == lo && b[j + 1] == hi);
            assert(b[j as int] < b[j + 1]);
            if j + 2 < b.len() {
                assert(b[j + 1] < b[j + 2]);
            }
        }
        let vals = values_in(entries, lo, hi);
        let m = DataDogMetric::from_gauge(&entries[lo].0, &vals, tags, timestamp);
        proof {
            assert(values_of(entries@.subrange(lo as int, hi as int)) =~= values_of(entries@).subrange(lo as int, hi as int));
        }
        r.push(m);
        j = j + 1;
    }
    r
}

/// One histogram series per run of equal consecutive keys, holding the
/// observations of the run's handles in order.
pub fn collect_histograms(entries: &Vec<(MetricKey, Vec<u64>)>, tags: &Vec<Label>, timestamp: u64) -> (r: Vec<DataDogMetric>)
    ensures
        histograms_from(entries@, tags@, timestamp, r@),
{
    let bounds = group_bounds(entries);
    let ghost b = run_bounds(keys_of(entries@));
    proof {
        lemma_run_bounds(keys_of(entries@));
    }
    let mut r: Vec<DataDogMetric> = Vec::new();
    let mut j: usize = 0;
    while j + 1 < bounds.len()
        invariant
            bounds@.map_values(|x: usize| x as int) == b,
            b == run_bounds(keys_of(entries@)),
            b.len() >= 1,
            b.last() == entries.len(),
            forall|i: int, k: int| 0 <= i < k < b.len() ==> #[trigger] b[i] < #[trigger] b[k],
            forall|k: int| 0 <= k < b.len() ==> 0 <= #[trigger] b[k] <= entries.len(),
            j < bounds.len(),
            r.len() == j,
            forall|k: int|
                0 <= k < j ==> describes(#[trigger] r[k], keys_of(entries@)[b[k]], tags@, timestamp)
                    && (r[k].value matches MetricValue::Histogram(o) && o@ == observations_of(
                    entries@.subrange(b[k], b[k + 1]),
                )),
        decreases bounds.len() - j,
    {
        let lo = bounds[j];
        let hi = bounds[j + 1];
        proof {
            assert(b[j as int] == lo && b[j + 1] == hi);
            assert(b[j as int] < b[j + 1]);
            if j + 2 < b.len() {
                assert(b[j + 1] < b[j + 2]);
            }
        }
        let vals = observations_in(entries, lo, hi);
        let m = DataDogMetric::from_histogram(&entries[lo].0, &vals, tags, timestamp);
        proof {
        }
        r.push(m);
        j = j + 1;
    }
    r
}

} // verus!
