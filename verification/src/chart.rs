//! The data behind a chart: the keyword lines and the moments, read from the
//! API's own JSON answer.

use vstd::prelude::*;

verus! {

/// One keyword's line on a chart.
pub struct TrendChart {
    pub keyword: String,
    pub data: Vec<i64>,
}

/// The plain value of a [`TrendChart`].
pub struct TrendChartView {
    pub keyword: Seq<char>,
    pub data: Seq<i64>,
}

impl View for TrendChart {
    type V = TrendChartView;

    open spec fn view(&self) -> TrendChartView {
        TrendChartView { keyword: self.keyword@, data: self.data@ }
    }
}

/// One row of an API answer as read: its `time` if it is an `i64`, and its
/// `value` entries if it is an array, each as an `i64` if it is one.
pub struct ChartRecord {
    pub time: Option<i64>,
    pub value: Option<Vec<Option<i64>>>,
}

/// The plain value of a [`ChartRecord`].
pub struct ChartRecordView {
    pub time: Option<i64>,
    pub value: Option<Seq<Option<i64>>>,
}

impl View for ChartRecord {
    type V = ChartRecordView;

    open spec fn view(&self) -> ChartRecordView {
        ChartRecordView {
            time: self.time,
            value: match &self.value {
                Some(v) => Some(v@),
                None => None,
            },
        }
    }
}

/// An API answer as read: `titles` if it is an array (each entry as a string
/// if it is one), and `data` if it is an array.
pub struct ChartReply {
    pub titles: Option<Vec<Option<String>>>,
    pub records: Option<Vec<ChartRecord>>,
}

/// The plain value of a [`ChartReply`].
pub struct ChartReplyView {
    pub titles: Option<Seq<Option<Seq<char>>>>,
    pub records: Option<Seq<ChartRecordView>>,
}

impl View for ChartReply {
    type V = ChartReplyView;

    open spec fn view(&self) -> ChartReplyView {
        ChartReplyView {
            titles: match &self.titles {
                Some(t) => Some(t@.map_values(|x: Option<String>| match x {
                    Some(s) => Some(s@),
                    None => None,
                })),
                None => None,
            },
            records: match &self.records {
                Some(r) => Some(r@.map_values(|x: ChartRecord| x@)),
                None => None,
            },
        }
    }
}

/// What an API answer text holds for a chart; `None` when it is not JSON.
pub uninterp spec fn chart_json(text: Seq<char>) -> Option<ChartReplyView>;

/// Reads `titles` and `data` of an API answer with `serde_json::from_str` into
/// a `serde_json::Value`, `as_array`, `as_str` and `as_i64`. The contract names
/// the result.
#[verifier::external_body]
fn read_chart_reply(text: &str) -> (r: Option<ChartReply>)
    ensures
        match r {
            Some(c) => chart_json(text@) == Some(c@),
            None => chart_json(text@) is None,
        },
{
    let v: serde_json::Value = serde_json::from_str(text).ok()?;
    Some(ChartReply {
        titles: v["titles"].as_array().map(|a| a.iter().map(|t| t.as_str().map(|s| s.to_string())).collect()),
        records: v["data"].as_array().map(|a| a.iter().map(|r| ChartRecord {
            time: r["time"].as_i64(),
            value: r["value"].as_array().map(|vs| vs.iter().map(|x| x.as_i64()).collect()),
        }).collect()),
    })
}

/// Reads an API answer for a chart; `None` when it is not JSON.
pub fn chart_reply(text: &str) -> (r: Option<ChartReply>)
    ensures
        match r {
            Some(c) => chart_json(text@) == Some(c@),
            None => chart_json(text@) is None,
        },
{
    read_chart_reply(text)
}

/// A row has what a chart reads of it with `n` titles: its time, and when
/// there are titles, a value array with an integer for each title.
pub open spec fn record_complete(rec: ChartRecordView, n: nat) -> bool {
    &&& rec.time is Some
    &&& n > 0 ==> {
        &&& rec.value is Some
        &&& n <= rec.value->0.len()
        &&& forall|k: int| 0 <= k < n ==> (#[trigger] rec.value->0[k]) is Some
    }
}

/// Every part that a chart reads is there: both arrays, every title a string,
/// and every row complete.
pub open spec fn chart_complete(r: ChartReplyView) -> bool {
    &&& r.titles is Some
    &&& r.records is Some
    &&& forall|k: int| 0 <= k < r.titles->0.len() ==> (#[trigger] r.titles->0[k]) is Some
    &&& forall|j: int| 0 <= j < r.records->0.len() ==> record_complete(#[trigger] r.records->0[j], r.titles->0.len())
}

/// The chart lines: one per title, with that title's entry of every row.
pub open spec fn chart_lines(r: ChartReplyView) -> Seq<TrendChartView> {
    Seq::new(
        r.titles->0.len(),
        |k: int|
            TrendChartView {
                keyword: r.titles->0[k]->0,
                data: Seq::new(r.records->0.len(), |j: int| r.records->0[j].value->0[k]->0),
            },
    )
}

/// The moments of the chart: the time of every row.
pub open spec fn chart_times(r: ChartReplyView) -> Seq<i64> {
    Seq::new(r.records->0.len(), |j: int| r.records->0[j].time->0)
}

fn record_is_complete(rec: &ChartRecord, n: usize) -> (r: bool)
    ensures
        r == record_complete(rec@, n as nat),
{
    if rec.time.is_none() {
        return false;
    }
    if n == 0 {
        return true;
    }
    let values = match &rec.value {
        Some(v) => v,
        None => return false,
    };
    if values.len() < n {
        return false;
    }
    let mut k: usize = 0;
    while k < n
        invariant
            k <= n,
            n <= values@.len(),
            rec@.value == Some(values@),
            forall|i: int| 0 <= i < k ==> (#[trigger] values@[i]) is Some,
        decreases n - k,
    {
        if values[k].is_none() {
            assert(rec@.value->0[k as int] is None);
            return false;
        }
        k = k + 1;
    }
    true
}

/// Whether a reply has every part that a chart reads.
pub fn chart_is_complete(reply: &ChartReply) -> (r: bool)
    ensures
        r == chart_complete(reply@),
{
    let titles = match &reply.titles {
        Some(t) => t,
        None => return false,
    };
    let records = match &reply.records {
        Some(r) => r,
        None => return false,
    };
    let ghost rv = reply@;
    assert(rv.titles->0.len() == titles@.len());
    assert(rv.records->0.len() == records@.len());
    let mut k: usize = 0;
    while k < titles.len()
        invariant
            k <= titles@.len(),
            rv == reply@,
            rv.titles == Some(titles@.map_values(|x: Option<String>| match x {
                Some(s) => Some(s@),
                None => None,
            })),
            forall|i: int| 0 <= i < k ==> (#[trigger] rv.titles->0[i]) is Some,
        decreases titles@.len() - k,
    {
        if titles[k].is_none() {
            assert(rv.titles->0[k as int] is None);
            return false;
        }
        k = k + 1;
    }
    let n = titles.len();
    let mut j: usize = 0;
    while j < records.len()
        invariant
            j <= records@.len(),
            rv == reply@,
            rv.records == Some(records@.map_values(|x: ChartRecord| x@)),
            rv.titles->0.len() == n,
            forall|i: int| 0 <= i < j ==> record_complete(#[trigger] rv.records->0[i], n as nat),
        decreases records@.len() - j,
    {
        assert(rv.records->0[j as int] == records@[j as int]@);
        if !record_is_complete(&records[j], n) {
            return false;
        }
        j = j + 1;
    }
    true
}

/// The chart of an API answer: one line per title holding that title's value
/// in every row, and the rows' times.
pub fn chart_series(reply: &ChartReply) -> (r: (Vec<TrendChart>, Vec<i64>))
    requires
        chart_complete(reply@),
    ensures
        r.0@.map_values(|c: TrendChart| c@) == chart_lines(reply@),
        r.1@ == chart_times(reply@),
{
    let ghost rv = reply@;
    let titles = reply.titles.as_ref().unwrap();
    let records = reply.records.as_ref().unwrap();
    let mut lines: Vec<TrendChart> = Vec::new();
    let mut k: usize = 0;
    while k < titles.len()
        invariant
            k <= titles@.len(),
            rv == reply@,
            chart_complete(rv),
            rv.titles->0.len() == titles@.len(),
            rv.records->0.len() == records@.len(),
            forall|i: int| 0 <= i < titles@.len() ==> #[trigger] rv.titles->0[i] == match titles@[i] {
                Some(s) => Some(s@),
                None => None::<Seq<char>>,
            },
            forall|i: int| 0 <= i < records@.len() ==> #[trigger] rv.records->0[i] == records@[i]@,
            lines@.len() == k,
            forall|i: int| 0 <= i < k ==> (#[trigger] lines@[i])@ == chart_lines(rv)[i],
        decreases titles@.len() - k,
    {
        assert(rv.titles->0[k as int] is Some);
        let keyword = titles[k].as_ref().unwrap().clone();
        let mut data: Vec<i64> = Vec::new();
        let mut j: usize = 0;
        while j < records.len()
            invariant
                j <= records@.len(),
                k < titles@.len(),
                chart_complete(rv),
                rv.titles->0.len() == titles@.len(),
                rv.records->0.len() == records@.len(),
                forall|i: int| 0 <= i < records@.len() ==> #[trigger] rv.records->0[i] == records@[i]@,
                data@.len() == j,
                forall|i: int| 0 <= i < j ==> data@[i] == (#[trigger] rv.records->0[i]).value->0[k as int]->0,
            decreases records@.len() - j,
        {
            assert(rv.records->0[j as int] == records@[j as int]@);
            assert(record_complete(rv.records->0[j as int], rv.titles->0.len()));
            assert(rv.records->0[j as int].value->0[k as int] is Some);
            let v = records[j].value.as_ref().unwrap()[k].unwrap();
            data.push(v);
            j = j + 1;
        }
        let line = TrendChart { keyword, data };
        assert(line@.data =~= chart_lines(rv)[k as int].data);
        lines.push(line);
        k = k + 1;
    }
    let mut times: Vec<i64> = Vec::new();
    let mut j: usize = 0;
    while j < records.len()
        invariant
            j <= records@.len(),
            chart_complete(rv),
            rv.records->0.len() == records@.len(),
            forall|i: int| 0 <= i < records@.len() ==> #[trigger] rv.records->0[i] == records@[i]@,
            times@.len() == j,
            forall|i: int| 0 <= i < j ==> times@[i] == (#[trigger] rv.records->0[i]).time->0,
        decreases records@.len() - j,
    {
        assert(rv.records->0[j as int] == records@[j as int]@);
        assert(record_complete(rv.records->0[j as int], rv.titles->0.len()));
        times.push(records[j].time.unwrap());
        j = j + 1;
    }
    assert(lines@.map_values(|c: TrendChart| c@) =~= chart_lines(rv));
    assert(times@ =~= chart_times(rv));
    (lines, times)
}

} // verus!
