//! The exporter's configuration, the collect step over one registry
//! snapshot, and the decisions of a flush.
use vstd::prelude::*;
use crate::metric::{
    collect_counters, collect_gauges, collect_histograms, counters_from, gauges_from,
    histograms_from, lemma_run_bounds, keys_of, DataDogMetric, Label, MetricKey,
};
use crate::packer::EncodeError;

verus! {

/// The handles read from the registry at one flush instant, in the order the
/// registry handed them out. Gauge values and histogram observations are the
/// bit patterns of 64-bit floats.
pub struct Snapshot {
    pub counters: Vec<(MetricKey, u64)>,
    pub gauges: Vec<(MetricKey, u64)>,
    pub histograms: Vec<(MetricKey, Vec<u64>)>,
}

impl Snapshot {
    pub fn new() -> (r: Snapshot)
        ensures
            r.counters@.len() == 0,
            r.gauges@.len() == 0,
            r.histograms@.len() == 0,
    {
        Snapshot { counters: Vec::new(), gauges: Vec::new(), histograms: Vec::new() }
    }
}

/// What a failed request reported.
#[derive(Debug, Clone, Copy, PartialEq, Eq)]
pub enum TransportError {
    /// The API answered with a status outside 200..=299.
    Status(u16),
    /// The request failed before a status came back.
    Network,
    /// No HTTP client or no API key was configured.
    NotConfigured,
}

/// Why a flush did not complete.
#[derive(Debug, Clone, Copy, PartialEq, Eq)]
pub enum FlushError {
    Encode(EncodeError),
    Transport(TransportError),
}

/// What one flush pass does with the series it collected.
#[derive(Debug, Clone, Copy, PartialEq, Eq)]
pub struct FlushPlan {
    /// Write one line per series to standard output.
    pub console: bool,
    /// Pack the series and post them to the API.
    pub api: bool,
}

/// The outcome of one answered request: success for a 2xx status.
pub fn response_result(status: u16) -> (r: Result<(), TransportError>)
    ensures
        r is Ok <==> 200 <= status <= 299,
        r is Err ==> r == Err::<(), TransportError>(TransportError::Status(status)),
{
    if 200 <= status && status <= 299 {
        Ok(())
    } else {
        Err(TransportError::Status(status))
    }
}

/// The outcome of a fan-out of requests, all of which were awaited: the
/// first failure in request order, or success when none failed.
pub fn first_failure(results: &Vec<Result<(), TransportError>>) -> (r: Result<(), TransportError>)
    ensures
        r is Ok <==> forall|i: int| 0 <= i < results.len() ==> results@[i] is Ok,
        r is Err ==> exists|i: int|
            0 <= i < results.len() && results@[i] == r && forall|k: int|
                0 <= k < i ==> results@[k] is Ok,
{
    let mut i: usize = 0;
    while i < results.len()
        invariant
            i <= results.len(),
            forall|k: int| 0 <= k < i ==> results@[k] is Ok,
        decreases results.len() - i,
    {
        match results[i] {
            Err(e) => {
                return Err(e);
            },
            Ok(()) => {},
        }
        i = i + 1;
    }
    Ok(())
}

/// Metric exporter: where collected series go, and with which tags.
pub struct DataDogExporter {
    pub write_to_stdout: bool,
    pub write_to_api: bool,
    pub api_host: String,
    pub api_key: Option<String>,
    pub tags: Vec<Label>,
    pub gzip: bool,
}

impl DataDogExporter {
    pub fn new(
        write_to_stdout: bool,
        write_to_api: bool,
        api_host: String,
        api_key: Option<String>,
        tags: Vec<Label>,
        gzip: bool,
    ) -> (r: DataDogExporter)
        ensures
            r.write_to_stdout == write_to_stdout,
            r.write_to_api == write_to_api,
            r.api_host == api_host,
            r.api_key == api_key,
            r.tags == tags,
            r.gzip == gzip,
    {
        DataDogExporter { write_to_stdout, write_to_api, api_host, api_key, tags, gzip }
    }

    /// The series of one snapshot: counters, then gauges, then histograms,
    /// one series per run of equal consecutive keys in each.
    pub fn collect(&self, snapshot: &Snapshot, timestamp: u64) -> (r: Vec<DataDogMetric>)
        ensures
            ({
                let c = run_bounds_count(keys_of(snapshot.counters@));
                let g = run_bounds_count(keys_of(snapshot.gauges@));
                &&& counters_from(snapshot.counters@, self.tags@, timestamp, r@.take(c))
                &&& gauges_from(snapshot.gauges@, self.tags@, timestamp, r@.subrange(c, c + g))
                &&& histograms_from(snapshot.histograms@, self.tags@, timestamp, r@.skip(c + g))
                &&& c + g <= r.len()
            }),
            r.len() == 0 <==> snapshot.counters.len() == 0 && snapshot.gauges.len() == 0
                && snapshot.histograms.len() == 0,
    {
        let mut r = collect_counters(&snapshot.counters, &self.tags, timestamp);
        let mut gauges = collect_gauges(&snapshot.gauges, &self.tags, timestamp);
        let mut histograms = collect_histograms(&snapshot.histograms, &self.tags, timestamp);
        let ghost (cs, gs, hs) = (r@, gauges@, histograms@);
        r.append(&mut gauges);
        r.append(&mut histograms);
        proof {
            lemma_run_bounds(keys_of(snapshot.counters@));
            lemma_run_bounds(keys_of(snapshot.gauges@));
            lemma_run_bounds(keys_of(snapshot.histograms@));
            assert(r@.take(cs.len() as int) =~= cs);
            assert(r@.subrange(cs.len() as int, (cs.len() + gs.len()) as int) =~= gs);
            assert(r@.skip((cs.len() + gs.len()) as int) =~= hs);
        }
        r
    }

    /// The headers of every request: the API key, then the content encoding
    /// where bodies are compressed. Without an API key nothing can be sent.
    pub fn request_headers(&self) -> (r: Result<Vec<(String, String)>, TransportError>)
        ensures
            self.api_key is None <==> r is Err,
            r is Err ==> r == Err::<Vec<(String, String)>, TransportError>(
                TransportError::NotConfigured,
            ),
            r matches Ok(h) ==> {
                &&& h.len() == if self.gzip {
                    2int
                } else {
                    1int
                }
                &&& h[0].0@ == "DD-API-KEY"@
                &&& h[0].1@ == self.api_key.unwrap()@
                &&& self.gzip ==> h[1].0@ == "Content-Encoding"@ && h[1].1@ == "gzip"@
            },
    {
        match &self.api_key {
            None => Err(TransportError::NotConfigured),
            Some(key) => {
                let mut h: Vec<(String, String)> = Vec::new();
                h.push(("DD-API-KEY".to_owned(), key.clone()));
                if self.gzip {
                    h.push(("Content-Encoding".to_owned(), "gzip".to_owned()));
                }
                Ok(h)
            },
        }
    }

    /// What a flush of `metric_count` series does: the console sink and the
    /// API export each run exactly when enabled, and nothing is posted when
    /// there is nothing to post.
    pub fn flush_plan(&self, metric_count: usize) -> (r: FlushPlan)
        ensures
            r.console == self.write_to_stdout,
            r.api == (self.write_to_api && metric_count > 0),
    {
        FlushPlan { console: self.write_to_stdout, api: self.write_to_api && metric_count > 0 }
    }
}

/// The number of runs that `run_bounds` finds.
pub open spec fn run_bounds_count<K>(keys: Seq<K>) -> int {
    crate::metric::run_bounds(keys).len() - 1
}

} // verus!
