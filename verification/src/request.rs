//! One upstream trend request for a group of keywords: the URLs, the replies
//! and what is read from them, and the timing table that the requests share.

use vstd::prelude::*;
use crate::text::{contains_text, lemma_contains_middle, lemma_contains_within, text_after_bytes, cut_bytes, strings_view, trim_quotes, trim_quotes_str, parses_unsigned, decimal_value, unsigned_digits, parse_unsigned};
use crate::trend::{Data, DataView, Trend, TrendView, data_view, trends_view, timing_view};
use crate::timing::{sort_timing, sort_timing_table};


verus! {

/// The parameters of an upstream trend request.
pub struct ReqParams {
    pub base_url: String,
    pub tz: String,
    pub hl: String,
    pub time: String,
    pub geo: String,
    pub keywords: Option<Vec<String>>,
}

/// One entry of the `comparisonItem` list of an explore request.
pub open spec fn comparison_item(keyword: Seq<char>, geo: Seq<char>, time: Seq<char>) -> Seq<char> {
    "{\"keyword\":\""@ + keyword + "\",\"geo\":\""@ + geo + "\",\"time\":\""@ + time + "\"}"@
}

/// The entries for all keywords, separated by commas.
pub open spec fn comparison_items(list: Seq<Seq<char>>, geo: Seq<char>, time: Seq<char>) -> Seq<char>
    decreases list.len(),
{
    if list.len() == 0 {
        Seq::empty()
    } else if list.len() == 1 {
        comparison_item(list[0], geo, time)
    } else {
        comparison_items(list.drop_last(), geo, time) + ","@ + comparison_item(list.last(), geo, time)
    }
}

/// The JSON text of an explore request for the keywords.
pub open spec fn explore_request(list: Seq<Seq<char>>, geo: Seq<char>, time: Seq<char>) -> Seq<char> {
    "{\"comparisonItem\":["@ + comparison_items(list, geo, time) + "],\"category\":0,\"property\":\"\"}"@
}

/// Builds the JSON text of an explore request: one comparison item per keyword,
/// each with the region and time range. The list must not be empty: the
/// items are joined by cutting the comma after the last one, which an empty
/// list does not have.
pub fn req_explore(list: &Vec<String>, geo: &str, time: &str) -> (r: String)
    requires
        list@.len() > 0,
    ensures
        r@ == explore_request(strings_view(list@), geo@, time@),
{
    let ghost sv = strings_view(list@);
    let mut items = String::new();
    let mut i: usize = 0;
    assert(sv.take(0) =~= Seq::<Seq<char>>::empty());
    while i < list.len()
        invariant
            i <= list@.len(),
            sv == strings_view(list@),
            items@ == comparison_items(sv.take(i as int), geo@, time@),
        decreases list@.len() - i,
    {
        let ghost before = items@;
        if i > 0 {
            items.append(",");
        }
        items.append("{\"keyword\":\"");
        items.append(list[i].as_str());
        items.append("\",\"geo\":\"");
        items.append(geo);
        items.append("\",\"time\":\"");
        items.append(time);
        items.append("\"}");
        assert(sv.take(i + 1).drop_last() =~= sv.take(i as int));
        assert(sv.take(i + 1).last() == list@[i as int]@);
        if i > 0 {
            assert(items@ =~= before + ","@ + comparison_item(list@[i as int]@, geo@, time@));
        } else {
            assert(items@ =~= comparison_item(list@[i as int]@, geo@, time@));
        }
        i = i + 1;
    }
    assert(sv.take(list@.len() as int) =~= sv);
    let mut r = String::from_str("{\"comparisonItem\":[");
    r.append(items.as_str());
    r.append("],\"category\":0,\"property\":\"\"}");
    r
}

/// The URL of the explore request.
pub open spec fn explore_url_text(params: ReqParams, list: Seq<Seq<char>>) -> Seq<char> {
    params.base_url@ + "explore?hl="@ + params.hl@ + "&tz="@ + params.tz@ + "&req="@
        + explore_request(list, params.geo@, params.time@)
}

/// The URL of the explore request for a group of keywords.
pub fn explore_url(params: &ReqParams, list: &Vec<String>) -> (r: String)
    requires
        list@.len() > 0,
    ensures
        r@ == explore_url_text(*params, strings_view(list@)),
{
    let mut r = params.base_url.clone();
    r.append("explore?hl=");
    r.append(params.hl.as_str());
    r.append("&tz=");
    r.append(params.tz.as_str());
    r.append("&req=");
    let req = req_explore(list, params.geo.as_str(), params.time.as_str());
    r.append(req.as_str());
    assert(r@ =~= explore_url_text(*params, strings_view(list@)));
    r
}

/// The URL of the data request, from the widget's request JSON and its token.
pub open spec fn data_url_text(params: ReqParams, request: Seq<char>, token: Seq<char>) -> Seq<char> {
    params.base_url@ + "widgetdata/multiline?hl="@ + params.hl@ + "&tz="@ + params.tz@ + "&req="@
        + request + "&token="@ + token
}

/// The URL of the data request.
pub fn data_url(params: &ReqParams, request: &str, token: &str) -> (r: String)
    ensures
        r@ == data_url_text(*params, request@, token@),
{
    let mut r = params.base_url.clone();
    r.append("widgetdata/multiline?hl=");
    r.append(params.hl.as_str());
    r.append("&tz=");
    r.append(params.tz.as_str());
    r.append("&req=");
    r.append(request);
    r.append("&token=");
    r.append(token);
    assert(r@ =~= data_url_text(*params, request@, token@));
    r
}

/// What is left of an upstream reply once its first five bytes are cut off;
/// `None` when byte 5 is not a character boundary, where the cut cannot be made.
pub open spec fn reply_body(text: Seq<char>) -> Option<Seq<char>> {
    text_after_bytes(text, 5)
}

/// Cuts off the five-byte guard that upstream replies start with.
pub fn strip_reply_guard(text: &str) -> (r: Option<String>)
    ensures
        r is Some <==> reply_body(text@) is Some,
        r matches Some(b) ==> reply_body(text@) == Some(b@),
{
    cut_bytes(text, 5)
}

} // verus!

verus! {

/// Why a trend query stops without an answer.
#[derive(PartialEq, Eq, Structural, Clone, Copy, Debug)]
pub enum QueryError {
    /// An upstream reply is not JSON.
    InvalidJson,
    /// A number in an upstream reply does not parse.
    InvalidNumber,
    /// An upstream reply lacks a part that the query reads as given (a
    /// missing array, string, point, or the guard); the server that drives
    /// the query panics on it.
    Malformed,
    /// An event that the query's current stage does not wait for.
    UnexpectedEvent,
}

/// What the explore reply gives for the data request: the JSON text of
/// `widgets[0].token` and of `widgets[0].request` (each `null` when absent);
/// `None` when the reply is not JSON.
pub uninterp spec fn explore_widget_json(text: Seq<char>) -> Option<(Seq<char>, Seq<char>)>;

/// Reads `widgets[0].token` and `widgets[0].request` of an explore reply with
/// `serde_json::from_str` into a `serde_json::Value`, indexing it, and its
/// `to_string` (its JSON text). The contract names the result and states nothing more.
#[verifier::external_body]
fn read_explore_widget(text: &str) -> (r: Option<(String, String)>)
    ensures
        r matches Some(p) ==> explore_widget_json(text@) == Some((p.0@, p.1@)),
        r is None ==> explore_widget_json(text@) is None,
{
    match serde_json::from_str::<serde_json::Value>(text) {
        Ok(v) => Some((v["widgets"][0]["token"].to_string(), v["widgets"][0]["request"].to_string())),
        Err(_) => None,
    }
}

/// The data request that an explore reply leads to: its URL, from the
/// widget's request JSON and its token without quotes.
pub open spec fn data_request_of(params: ReqParams, body: Seq<char>) -> Result<Seq<char>, QueryError> {
    match explore_widget_json(body) {
        None => Err(QueryError::InvalidJson),
        Some(w) => Ok(data_url_text(params, w.1, trim_quotes(w.0))),
    }
}

/// The URL of the data request from the explore widget's `token` and
/// `request` as JSON texts: the request as it is, the token without quotes.
pub fn widget_data_url(params: &ReqParams, token_json: &str, request_json: &str) -> (r: String)
    ensures
        r@ == data_url_text(*params, request_json@, trim_quotes(token_json@)),
{
    let token = trim_quotes_str(token_json);
    data_url(params, request_json, token.as_str())
}

/// Reads an explore reply (guard already cut off) and builds the URL of the data request.
pub fn data_request(params: &ReqParams, body: &str) -> (r: Result<String, QueryError>)
    ensures
        r matches Ok(u) ==> data_request_of(*params, body@) == Ok::<Seq<char>, QueryError>(u@),
        r matches Err(e) ==> data_request_of(*params, body@) == Err::<Seq<char>, QueryError>(e),
{
    match read_explore_widget(body) {
        None => Err(QueryError::InvalidJson),
        Some(w) => Ok(widget_data_url(params, w.0.as_str(), w.1.as_str())),
    }
}

/// One point of an upstream timeline as JSON texts: the `time` value, the
/// `formattedAxisTime` string if it is one, and the `value` entries if it is an array.
pub struct TimelinePoint {
    pub time: String,
    pub formatted_axis_time: Option<String>,
    pub value: Option<Vec<String>>,
}

/// The plain value of a [`TimelinePoint`].
pub struct TimelinePointView {
    pub time: Seq<char>,
    pub formatted_axis_time: Option<Seq<char>>,
    pub value: Option<Seq<Seq<char>>>,
}

impl View for TimelinePoint {
    type V = TimelinePointView;

    open spec fn view(&self) -> TimelinePointView {
        TimelinePointView {
            time: self.time@,
            formatted_axis_time: match &self.formatted_axis_time {
                Some(f) => Some(f@),
                None => None,
            },
            value: match &self.value {
                Some(v) => Some(strings_view(v@)),
                None => None,
            },
        }
    }
}

/// The views of a list of timeline points.
pub open spec fn points_view(p: Seq<TimelinePoint>) -> Seq<TimelinePointView> {
    p.map_values(|x: TimelinePoint| x@)
}

/// The view of what the timeline reader returns.
pub open spec fn timeline_view(r: Option<Option<Vec<TimelinePoint>>>) -> Option<Option<Seq<TimelinePointView>>> {
    match r {
        None => None,
        Some(None) => Some(None),
        Some(Some(v)) => Some(Some(points_view(v@))),
    }
}

/// What a data reply holds: `None` when it is not JSON; `Some(None)` when
/// `default.timelineData` is not an array; else its points.
pub uninterp spec fn timeline_json(text: Seq<char>) -> Option<Option<Seq<TimelinePointView>>>;

/// Reads `default.timelineData` of a data reply with `serde_json::from_str`
/// into a `serde_json::Value`, `as_array`, `as_str` and `to_string` (JSON text)
/// of the values. The contract names the result and states nothing more.
#[verifier::external_body]
fn read_timeline(text: &str) -> (r: Option<Option<Vec<TimelinePoint>>>)
    ensures
        timeline_view(r) == timeline_json(text@),
{
    let v: serde_json::Value = match serde_json::from_str(text) {
        Ok(v) => v,
        Err(_) => return None,
    };
    Some(v["default"]["timelineData"].as_array().map(|points| points.iter().map(|p| TimelinePoint {
        time: p["time"].to_string(),
        formatted_axis_time: p["formattedAxisTime"].as_str().map(|s| s.to_string()),
        value: p["value"].as_array().map(|vs| vs.iter().map(|x| x.to_string()).collect()),
    }).collect()))
}

/// Reads the points of a data reply (guard already cut off).
pub fn timeline_points(body: &str) -> (r: Result<Vec<TimelinePoint>, QueryError>)
    ensures
        r matches Ok(p) ==> timeline_json(body@) == Some(Some(points_view(p@))),
        r matches Err(e) ==> (e == QueryError::InvalidJson && timeline_json(body@) is None)
            || (e == QueryError::Malformed && timeline_json(body@) == Some(None::<Seq<TimelinePointView>>)),
{
    match read_timeline(body) {
        None => Err(QueryError::InvalidJson),
        Some(None) => Err(QueryError::Malformed),
        Some(Some(p)) => Ok(p),
    }
}

} // verus!

verus! {

/// The timing row of one point: its `time` without quotes as seconds, and its
/// `formattedAxisTime` without quotes.
pub open spec fn point_timing(p: TimelinePointView) -> Result<(u32, Seq<char>), QueryError> {
    let t = trim_quotes(p.time);
    if !parses_unsigned(t, u32::MAX as nat) {
        Err(QueryError::InvalidNumber)
    } else {
        match p.formatted_axis_time {
            None => Err(QueryError::Malformed),
            Some(f) => Ok(((decimal_value(unsigned_digits(t)) as u32), trim_quotes(f))),
        }
    }
}

/// The timing table with the rows of the points appended in order, or the
/// first point's failure.
pub open spec fn collect_timing(points: Seq<TimelinePointView>, base: Seq<(u32, Seq<char>)>) -> Result<Seq<(u32, Seq<char>)>, QueryError>
    decreases points.len(),
{
    if points.len() == 0 {
        Ok(base)
    } else {
        match collect_timing(points.drop_last(), base) {
            Err(e) => Err(e),
            Ok(t) => match point_timing(points.last()) {
                Err(e) => Err(e),
                Ok(row) => Ok(t.push(row)),
            },
        }
    }
}

/// The value of keyword `k` at point `p`, with the timing row of `p`.
pub open spec fn cell(points: Seq<TimelinePointView>, timing: Seq<(u32, Seq<char>)>, k: int, p: int) -> Result<DataView, QueryError> {
    match points[p].value {
        None => Err(QueryError::Malformed),
        Some(vs) => if k >= vs.len() {
            Err(QueryError::Malformed)
        } else if !parses_unsigned(vs[k], 255) {
            Err(QueryError::InvalidNumber)
        } else if p >= timing.len() {
            Err(QueryError::Malformed)
        } else {
            Ok(DataView {
                time: timing[p].0,
                formatted_time: timing[p].1,
                value: decimal_value(unsigned_digits(vs[k])) as u8,
            })
        },
    }
}

/// The first `m` points of keyword `k`, or the first failure among them.
pub open spec fn trend_row(points: Seq<TimelinePointView>, timing: Seq<(u32, Seq<char>)>, k: int, m: nat) -> Result<Seq<DataView>, QueryError>
    decreases m,
{
    if m == 0 {
        Ok(Seq::empty())
    } else {
        match trend_row(points, timing, k, (m - 1) as nat) {
            Err(e) => Err(e),
            Ok(row) => match cell(points, timing, k, m - 1) {
                Err(e) => Err(e),
                Ok(d) => Ok(row.push(d)),
            },
        }
    }
}

/// The trends of the first `m` keywords, or the first failure among them.
pub open spec fn trend_table(keywords: Seq<Seq<char>>, points: Seq<TimelinePointView>, timing: Seq<(u32, Seq<char>)>, m: nat) -> Result<Seq<TrendView>, QueryError>
    decreases m,
{
    if m == 0 {
        Ok(Seq::empty())
    } else {
        match trend_table(keywords, points, timing, (m - 1) as nat) {
            Err(e) => Err(e),
            Ok(ts) => match trend_row(points, timing, m - 1, points.len()) {
                Err(e) => Err(e),
                Ok(row) => Ok(ts.push(TrendView { title: keywords[m - 1], data: row })),
            },
        }
    }
}

/// What one data reply makes of the keywords: the timing table (filled from
/// the points unless it was filled before, then sorted) and one trend per
/// keyword; or the first failure.
pub open spec fn timeline_outcome(
    keywords: Seq<Seq<char>>,
    points: Seq<TimelinePointView>,
    timing: Seq<(u32, Seq<char>)>,
    timing_set: bool,
) -> Result<(Seq<TrendView>, Seq<(u32, Seq<char>)>), QueryError> {
    let collected = if timing_set {
        Ok(timing)
    } else {
        collect_timing(points, timing)
    };
    match collected {
        Err(e) => Err(e),
        Ok(t) => {
            let sorted = sort_timing(t);
            match trend_table(keywords, points, sorted, keywords.len()) {
                Err(e) => Err(e),
                Ok(ts) => Ok((ts, sorted)),
            }
        },
    }
}

fn point_timing_exec(p: &TimelinePoint) -> (r: Result<(u32, String), QueryError>)
    ensures
        r matches Ok(row) ==> point_timing(p@) == Ok::<(u32, Seq<char>), QueryError>((row.0, row.1@)),
        r matches Err(e) ==> point_timing(p@) == Err::<(u32, Seq<char>), QueryError>(e),
{
    let t = trim_quotes_str(p.time.as_str());
    match parse_unsigned(t.as_str(), u32::MAX) {
        None => Err(QueryError::InvalidNumber),
        Some(secs) => match &p.formatted_axis_time {
            None => Err(QueryError::Malformed),
            Some(f) => Ok((secs, trim_quotes_str(f.as_str()))),
        },
    }
}

fn append_timing(points: &Vec<TimelinePoint>, timing: Vec<(u32, String)>) -> (r: Result<Vec<(u32, String)>, QueryError>)
    ensures
        r matches Ok(t) ==> collect_timing(points_view(points@), timing_view(timing@)) == Ok::<Seq<(u32, Seq<char>)>, QueryError>(timing_view(t@)),
        r matches Err(e) ==> collect_timing(points_view(points@), timing_view(timing@)) == Err::<Seq<(u32, Seq<char>)>, QueryError>(e),
{
    let ghost pv = points_view(points@);
    let ghost base = timing_view(timing@);
    let mut t = timing;
    let mut i: usize = 0;
    assert(pv.take(0) =~= Seq::<TimelinePointView>::empty());
    while i < points.len()
        invariant
            i <= points@.len(),
            pv == points_view(points@),
            base == timing_view(timing@),
            collect_timing(pv.take(i as int), base) == Ok::<Seq<(u32, Seq<char>)>, QueryError>(timing_view(t@)),
        decreases points@.len() - i,
    {
        assert(pv.take(i + 1).drop_last() =~= pv.take(i as int));
        assert(pv.take(i + 1).last() == points@[i as int]@);
        match point_timing_exec(&points[i]) {
            Err(e) => {
                proof {
                    assert(collect_timing(pv.take(i + 1), base) == Err::<Seq<(u32, Seq<char>)>, QueryError>(e));
                    lemma_collect_timing_stops(pv, base, i + 1);
                }
                return Err(e);
            },
            Ok(row) => {
                let ghost before = timing_view(t@);
                t.push(row);
                assert(timing_view(t@) =~= before.push((row.0, row.1@)));
            },
        }
        i = i + 1;
    }
    assert(pv.take(i as int) =~= pv);
    Ok(t)
}

pub(crate) proof fn lemma_collect_timing_len(points: Seq<TimelinePointView>, base: Seq<(u32, Seq<char>)>)
    requires
        collect_timing(points, base) is Ok,
    ensures
        collect_timing(points, base)->Ok_0.len() == base.len() + points.len(),
    decreases points.len(),
{
    if points.len() > 0 {
        lemma_collect_timing_len(points.drop_last(), base);
    }
}

proof fn lemma_collect_timing_stops(pv: Seq<TimelinePointView>, base: Seq<(u32, Seq<char>)>, m: int)
    requires
        0 < m <= pv.len(),
        collect_timing(pv.take(m), base) is Err,
    ensures
        collect_timing(pv, base) == collect_timing(pv.take(m), base),
    decreases pv.len() - m,
{
    if m < pv.len() {
        assert(pv.take(m + 1).drop_last() =~= pv.take(m));
        lemma_collect_timing_stops(pv, base, m + 1);
    } else {
        assert(pv.take(m) =~= pv);
    }
}

proof fn lemma_trend_row_stops(points: Seq<TimelinePointView>, timing: Seq<(u32, Seq<char>)>, k: int, m: nat, n: nat)
    requires
        m <= n,
        trend_row(points, timing, k, m) is Err,
    ensures
        trend_row(points, timing, k, n) == trend_row(points, timing, k, m),
    decreases n - m,
{
    if m < n {
        lemma_trend_row_stops(points, timing, k, m, (n - 1) as nat);
    }
}

proof fn lemma_trend_table_stops(keywords: Seq<Seq<char>>, points: Seq<TimelinePointView>, timing: Seq<(u32, Seq<char>)>, m: nat, n: nat)
    requires
        m <= n,
        trend_table(keywords, points, timing, m) is Err,
    ensures
        trend_table(keywords, points, timing, n) == trend_table(keywords, points, timing, m),
    decreases n - m,
{
    if m < n {
        lemma_trend_table_stops(keywords, points, timing, m, (n - 1) as nat);
    }
}

fn build_trends(keywords: &Vec<String>, points: &Vec<TimelinePoint>, timing: &Vec<(u32, String)>) -> (r: Result<Vec<Trend>, QueryError>)
    ensures
        r matches Ok(ts) ==> trend_table(strings_view(keywords@), points_view(points@), timing_view(timing@), keywords@.len() as nat)
            == Ok::<Seq<TrendView>, QueryError>(trends_view(ts@)),
        r matches Err(e) ==> trend_table(strings_view(keywords@), points_view(points@), timing_view(timing@), keywords@.len() as nat)
            == Err::<Seq<TrendView>, QueryError>(e),
{
    let ghost kv = strings_view(keywords@);
    let ghost pv = points_view(points@);
    let ghost tv = timing_view(timing@);
    let mut trends: Vec<Trend> = Vec::new();
    let mut k: usize = 0;
    assert(trends_view(trends@) =~= Seq::<TrendView>::empty());
    while k < keywords.len()
        invariant
            k <= keywords@.len(),
            kv == strings_view(keywords@),
            pv == points_view(points@),
            tv == timing_view(timing@),
            trend_table(kv, pv, tv, k as nat) == Ok::<Seq<TrendView>, QueryError>(trends_view(trends@)),
        decreases keywords@.len() - k,
    {
        let mut row: Vec<Data> = Vec::new();
        let mut p: usize = 0;
        assert(data_view(row@) =~= Seq::<DataView>::empty());
        while p < points.len()
            invariant
                p <= points@.len(),
                k < keywords@.len(),
                kv == strings_view(keywords@),
                pv == points_view(points@),
                tv == timing_view(timing@),
                trend_table(kv, pv, tv, k as nat) == Ok::<Seq<TrendView>, QueryError>(trends_view(trends@)),
                trend_row(pv, tv, k as int, p as nat) == Ok::<Seq<DataView>, QueryError>(data_view(row@)),
            decreases points@.len() - p,
        {
            assert(pv[p as int] == points@[p as int]@);
            let cell_result: Result<Data, QueryError> = match &points[p].value {
                None => Err(QueryError::Malformed),
                Some(vs) => {
                    if k >= vs.len() {
                        Err(QueryError::Malformed)
                    } else {
                        assert(strings_view(vs@)[k as int] == vs@[k as int]@);
                        match parse_unsigned(vs[k].as_str(), 255) {
                            None => Err(QueryError::InvalidNumber),
                            Some(v) => {
                                if p >= timing.len() {
                                    Err(QueryError::Malformed)
                                } else {
                                    assert(tv[p as int] == (timing@[p as int].0, timing@[p as int].1@));
                                    Ok(Data { time: timing[p].0, formatted_time: timing[p].1.clone(), value: v as u8 })
                                }
                            },
                        }
                    }
                },
            };
            match cell_result {
                Err(e) => {
                    assert(cell(pv, tv, k as int, p as int) == Err::<DataView, QueryError>(e));
                    proof {
                        lemma_trend_row_stops(pv, tv, k as int, (p + 1) as nat, pv.len());
                        assert(trend_table(kv, pv, tv, (k + 1) as nat) == Err::<Seq<TrendView>, QueryError>(e));
                        lemma_trend_table_stops(kv, pv, tv, (k + 1) as nat, kv.len());
                    }
                    return Err(e);
                },
                Ok(d) => {
                    assert(cell(pv, tv, k as int, p as int) == Ok::<DataView, QueryError>(d@));
                    let ghost before = data_view(row@);
                    row.push(d);
                    assert(data_view(row@) =~= before.push(d@));
                },
            }
            p = p + 1;
        }
        let t = Trend { title: keywords[k].clone(), data: row };
        let ghost before = trends_view(trends@);
        trends.push(t);
        assert(trends_view(trends@) =~= before.push(t@));
        k = k + 1;
    }
    Ok(trends)
}

/// Applies a data reply's points to a group of keywords: fills the timing
/// table from the points unless it was filled before, sorts it, and builds one
/// trend per keyword with the value of that keyword at each point.
pub fn apply_timeline(
    keywords: &Vec<String>,
    points: &Vec<TimelinePoint>,
    timing: Vec<(u32, String)>,
    timing_set: bool,
) -> (r: Result<(Vec<Trend>, Vec<(u32, String)>), QueryError>)
    ensures
        r matches Ok(x) ==> timeline_outcome(strings_view(keywords@), points_view(points@), timing_view(timing@), timing_set)
            == Ok::<(Seq<TrendView>, Seq<(u32, Seq<char>)>), QueryError>((trends_view(x.0@), timing_view(x.1@))),
        r matches Err(e) ==> timeline_outcome(strings_view(keywords@), points_view(points@), timing_view(timing@), timing_set)
            == Err::<(Seq<TrendView>, Seq<(u32, Seq<char>)>), QueryError>(e),
{
    let collected = if timing_set {
        timing
    } else {
        match append_timing(points, timing) {
            Err(e) => return Err(e),
            Ok(t) => t,
        }
    };
    let sorted = sort_timing_table(collected);
    match build_trends(keywords, points, &sorted) {
        Err(e) => Err(e),
        Ok(ts) => Ok((ts, sorted)),
    }
}

} // verus!

verus! {

proof fn lemma_items_contain(list: Seq<Seq<char>>, geo: Seq<char>, time: Seq<char>, i: int)
    requires
        0 <= i < list.len(),
    ensures
        contains_text(
            comparison_items(list, geo, time),
            "{\"keyword\":\""@ + list[i] + "\",\"geo\":\""@ + geo + "\",\"time\":\""@ + time + "\"}"@,
        ),
    decreases list.len(),
{
    let item = "{\"keyword\":\""@ + list[i] + "\",\"geo\":\""@ + geo + "\",\"time\":\""@ + time + "\"}"@;
    let e = Seq::<char>::empty();
    if list.len() == 1 {
        assert(e + item + e =~= item);
        lemma_contains_middle(e, item, e);
    } else if i == list.len() - 1 {
        let pre = comparison_items(list.drop_last(), geo, time) + ","@;
        assert(comparison_items(list, geo, time) == pre + item);
        assert(pre + item + e =~= pre + item);
        lemma_contains_middle(pre, item, e);
    } else {
        lemma_items_contain(list.drop_last(), geo, time, i);
        assert(list.drop_last()[i] == list[i]);
        let x = comparison_items(list.drop_last(), geo, time);
        let c = ","@ + comparison_item(list.last(), geo, time);
        assert(comparison_items(list, geo, time) =~= e + x + c);
        lemma_contains_within(e, x, c, item);
    }
}

/// The explore URL starts with the API, the language and the time zone, and
/// holds, for every keyword of the group, an item with that keyword, the
/// requested region and the requested time range.
pub proof fn lemma_explore_url_carries_params(params: ReqParams, list: Seq<Seq<char>>)
    ensures
        ({
            let prefix = params.base_url@ + "explore?hl="@ + params.hl@ + "&tz="@ + params.tz@ + "&req="@;
            explore_url_text(params, list).len() >= prefix.len()
                && explore_url_text(params, list).take(prefix.len() as int) == prefix
        }),
        forall|i: int| 0 <= i < list.len() ==> contains_text(
            explore_url_text(params, list),
            "{\"keyword\":\""@ + #[trigger] list[i] + "\",\"geo\":\""@ + params.geo@ + "\",\"time\":\""@ + params.time@ + "\"}"@,
        ),
{
    let prefix = params.base_url@ + "explore?hl="@ + params.hl@ + "&tz="@ + params.tz@ + "&req="@;
    let head = prefix + "{\"comparisonItem\":["@;
    let tail = "],\"category\":0,\"property\":\"\"}"@;
    let items = comparison_items(list, params.geo@, params.time@);
    assert(explore_url_text(params, list) =~= head + items + tail);
    assert((head + items + tail).take(prefix.len() as int) =~= prefix);
    assert forall|i: int| 0 <= i < list.len() implies contains_text(
        explore_url_text(params, list),
        "{\"keyword\":\""@ + #[trigger] list[i] + "\",\"geo\":\""@ + params.geo@ + "\",\"time\":\""@ + params.time@ + "\"}"@,
    ) by {
        lemma_items_contain(list, params.geo@, params.time@, i);
        lemma_contains_within(head, items, tail, "{\"keyword\":\""@ + list[i] + "\",\"geo\":\""@ + params.geo@ + "\",\"time\":\""@ + params.time@ + "\"}"@);
    }
}

/// Explore URLs for different time ranges differ (with the other parameters equal).
pub proof fn lemma_explore_url_time_matters(p1: ReqParams, p2: ReqParams, list: Seq<Seq<char>>)
    requires
        list.len() > 0,
        p1.base_url@ == p2.base_url@,
        p1.hl@ == p2.hl@,
        p1.tz@ == p2.tz@,
        p1.geo@ == p2.geo@,
        p1.time@ != p2.time@,
    ensures
        explore_url_text(p1, list) != explore_url_text(p2, list),
{
    if explore_url_text(p1, list) == explore_url_text(p2, list) {
        // The first item holds the time range right after a head that both
        // URLs share.
        let u = explore_url_text(p1, list);
        let prefix = p1.base_url@ + "explore?hl="@ + p1.hl@ + "&tz="@ + p1.tz@ + "&req="@;
        let head = prefix + "{\"comparisonItem\":["@ + "{\"keyword\":\""@ + list[0] + "\",\"geo\":\""@ + p1.geo@ + "\",\"time\":\""@;
        lemma_first_item(p1, list);
        lemma_first_item(p2, list);
        assert(u.subrange(head.len() as int, (head.len() + p1.time@.len()) as int) == p1.time@);
        let t1 = p1.time@;
        let t2 = p2.time@;
        assert(u.subrange(head.len() as int, (head.len() + t2.len()) as int) == t2);
        // Both URLs have the same length, so both time ranges have the same
        // length, and the first item holds each at the same place.
        let start = prefix + "{\"comparisonItem\":["@;
        let tail = "],\"category\":0,\"property\":\"\"}"@;
        assert(explore_url_text(p1, list) =~= start + comparison_items(list, p1.geo@, t1) + tail);
        assert(explore_url_text(p2, list) =~= start + comparison_items(list, p1.geo@, t2) + tail);
        lemma_items_len(list, p1.geo@, t1);
        lemma_items_len(list, p1.geo@, t2);
        let n: int = list.len() as int;
        assert(n * t1.len() == n * t2.len());
        assert(t1.len() == t2.len()) by (nonlinear_arith)
            requires n * t1.len() == n * t2.len(), n > 0;
        assert(t1 =~= t2);
    }
}

proof fn lemma_first_item(p: ReqParams, list: Seq<Seq<char>>)
    requires
        list.len() > 0,
    ensures
        ({
            let head = p.base_url@ + "explore?hl="@ + p.hl@ + "&tz="@ + p.tz@ + "&req="@ + "{\"comparisonItem\":["@
                + "{\"keyword\":\""@ + list[0] + "\",\"geo\":\""@ + p.geo@ + "\",\"time\":\""@;
            let u = explore_url_text(p, list);
            u.len() >= head.len() + p.time@.len()
                && u.subrange(head.len() as int, (head.len() + p.time@.len()) as int) == p.time@
        }),
{
    let item0 = comparison_item(list[0], p.geo@, p.time@);
    lemma_items_start(list, p.geo@, p.time@);
    let items = comparison_items(list, p.geo@, p.time@);
    let rest = items.skip(item0.len() as int);
    assert(items =~= item0 + rest);
    let head = p.base_url@ + "explore?hl="@ + p.hl@ + "&tz="@ + p.tz@ + "&req="@ + "{\"comparisonItem\":["@
        + "{\"keyword\":\""@ + list[0] + "\",\"geo\":\""@ + p.geo@ + "\",\"time\":\""@;
    let tail = "],\"category\":0,\"property\":\"\"}"@;
    let u = explore_url_text(p, list);
    assert(u =~= head + p.time@ + "\"}"@ + rest + tail);
}

proof fn lemma_items_start(list: Seq<Seq<char>>, geo: Seq<char>, time: Seq<char>)
    requires
        list.len() > 0,
    ensures
        comparison_items(list, geo, time).len() >= comparison_item(list[0], geo, time).len(),
        comparison_items(list, geo, time).take(comparison_item(list[0], geo, time).len() as int)
            == comparison_item(list[0], geo, time),
    decreases list.len(),
{
    if list.len() > 1 {
        lemma_items_start(list.drop_last(), geo, time);
        assert(list.drop_last()[0] == list[0]);
        let x = comparison_items(list.drop_last(), geo, time);
        let c = ","@ + comparison_item(list.last(), geo, time);
        assert(comparison_items(list, geo, time) =~= x + c);
        assert((x + c).take(comparison_item(list[0], geo, time).len() as int)
            =~= x.take(comparison_item(list[0], geo, time).len() as int));
    } else {
        assert(comparison_items(list, geo, time).take(comparison_item(list[0], geo, time).len() as int)
            =~= comparison_item(list[0], geo, time));
    }
}

proof fn lemma_items_len(list: Seq<Seq<char>>, geo: Seq<char>, time: Seq<char>)
    ensures
        comparison_items(list, geo, time).len()
            == comparison_items(list, geo, Seq::empty()).len() + list.len() * time.len(),
    decreases list.len(),
{
    let e = Seq::<char>::empty();
    if list.len() == 1 {
        assert(comparison_item(list[0], geo, time).len() == comparison_item(list[0], geo, e).len() + time.len());
    } else if list.len() > 1 {
        lemma_items_len(list.drop_last(), geo, time);
        assert(comparison_item(list.last(), geo, time).len() == comparison_item(list.last(), geo, e).len() + time.len());
        let n: int = list.len() as int;
        assert((n - 1) * time.len() + time.len() == n * time.len()) by (nonlinear_arith);
    }
}

/// The data URL starts with the API and holds the language, the time zone,
/// the widget request and the token, in this order and each after its name.
pub proof fn lemma_data_url_carries_params(params: ReqParams, request: Seq<char>, token: Seq<char>)
    ensures
        data_url_text(params, request, token).len() >= params.base_url@.len(),
        data_url_text(params, request, token).take(params.base_url@.len() as int) == params.base_url@,
        contains_text(
            data_url_text(params, request, token),
            "widgetdata/multiline?hl="@ + params.hl@ + "&tz="@ + params.tz@ + "&req="@ + request + "&token="@ + token,
        ),
{
    let mid = "widgetdata/multiline?hl="@ + params.hl@ + "&tz="@ + params.tz@ + "&req="@ + request + "&token="@ + token;
    let e = Seq::<char>::empty();
    assert(data_url_text(params, request, token) =~= params.base_url@ + mid + e);
    assert((params.base_url@ + mid + e).take(params.base_url@.len() as int) =~= params.base_url@);
    lemma_contains_middle(params.base_url@, mid, e);
}

/// Data URLs for different time zones differ (with the other parts equal).
pub proof fn lemma_data_url_tz_matters(p1: ReqParams, p2: ReqParams, request: Seq<char>, token: Seq<char>)
    requires
        p1.base_url@ == p2.base_url@,
        p1.hl@ == p2.hl@,
        p1.tz@ != p2.tz@,
    ensures
        data_url_text(p1, request, token) != data_url_text(p2, request, token),
{
    let pre = p1.base_url@ + "widgetdata/multiline?hl="@ + p1.hl@ + "&tz="@;
    let post = "&req="@ + request + "&token="@ + token;
    let u1 = data_url_text(p1, request, token);
    let u2 = data_url_text(p2, request, token);
    assert(u1 =~= pre + p1.tz@ + post);
    assert(u2 =~= pre + p2.tz@ + post);
    if u1 == u2 {
        assert(p1.tz@.len() == p2.tz@.len());
        assert(p1.tz@ =~= u1.subrange(pre.len() as int, (pre.len() + p1.tz@.len()) as int));
        assert(p2.tz@ =~= u2.subrange(pre.len() as int, (pre.len() + p2.tz@.len()) as int));
    }
}

} // verus!
