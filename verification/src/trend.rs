//! Trend data: the points of one keyword, the strongest of several trends,
//! and the zipped response that puts several keywords side by side.

use vstd::prelude::*;
use crate::text::contains_string;

verus! {

/// One point of a keyword's trend line.
pub struct Data {
    pub time: u32,
    pub formatted_time: String,
    pub value: u8,
}

/// The plain value of a [`Data`].
pub struct DataView {
    pub time: u32,
    pub formatted_time: Seq<char>,
    pub value: u8,
}

impl View for Data {
    type V = DataView;

    open spec fn view(&self) -> DataView {
        DataView { time: self.time, formatted_time: self.formatted_time@, value: self.value }
    }
}

/// The trend line of one keyword.
pub struct Trend {
    pub title: String,
    pub data: Vec<Data>,
}

/// The plain value of a [`Trend`].
pub struct TrendView {
    pub title: Seq<char>,
    pub data: Seq<DataView>,
}

/// The views of a sequence of points.
pub open spec fn data_view(d: Seq<Data>) -> Seq<DataView> {
    d.map_values(|x: Data| x@)
}

impl View for Trend {
    type V = TrendView;

    open spec fn view(&self) -> TrendView {
        TrendView { title: self.title@, data: data_view(self.data@) }
    }
}

/// The views of a sequence of trends.
pub open spec fn trends_view(ts: Seq<Trend>) -> Seq<TrendView> {
    ts.map_values(|t: Trend| t@)
}

/// The trend with an empty title and no points.
pub open spec fn empty_trend() -> TrendView {
    TrendView { title: Seq::empty(), data: Seq::empty() }
}

/// The largest value of a trend line, 0 for a line without points.
pub open spec fn max_value(data: Seq<DataView>) -> u8
    decreases data.len(),
{
    if data.len() == 0 {
        0
    } else {
        let m = max_value(data.drop_last());
        if data.last().value > m {
            data.last().value
        } else {
            m
        }
    }
}

/// `max_value` is the largest value of the line, or 0 when the line is empty or all zero.
pub proof fn lemma_max_value(data: Seq<DataView>)
    ensures
        forall|i: int| 0 <= i < data.len() ==> data[i].value <= max_value(data),
        max_value(data) == 0 || exists|i: int| 0 <= i < data.len() && data[i].value == max_value(data),
    decreases data.len(),
{
    if data.len() > 0 {
        let pre = data.drop_last();
        lemma_max_value(pre);
        assert forall|i: int| 0 <= i < data.len() implies data[i].value <= max_value(data) by {
            if i < data.len() - 1 {
                assert(data[i] == pre[i]);
            }
        }
        if max_value(data) != 0 && max_value(data) == max_value(pre) {
            let k = choose|i: int| 0 <= i < pre.len() && pre[i].value == max_value(pre);
            assert(data[k] == pre[k]);
        }
    }
}

impl Trend {
    /// A trend with an empty title and no points.
    pub fn new() -> (t: Trend)
        ensures
            t@ == empty_trend(),
    {
        let t = Trend { title: String::new(), data: Vec::new() };
        assert(t@.data =~= Seq::<DataView>::empty());
        t
    }

    /// The largest value of the trend line; 0 when it has no points.
    pub fn find_max_value(&self) -> (m: u8)
        ensures
            m == max_value(self@.data),
            forall|i: int| 0 <= i < self.data@.len() ==> self.data@[i].value <= m,
            m == 0 || exists|i: int| 0 <= i < self.data@.len() && self.data@[i].value == m,
    {
        let mut max_value_so_far: u8 = 0;
        let mut i: usize = 0;
        assert(self@.data.take(0) =~= Seq::<DataView>::empty());
        while i < self.data.len()
            invariant
                i <= self.data@.len(),
                max_value_so_far == max_value(self@.data.take(i as int)),
            decreases self.data@.len() - i,
        {
            assert(self@.data.take(i + 1).drop_last() =~= self@.data.take(i as int));
            if self.data[i].value > max_value_so_far {
                max_value_so_far = self.data[i].value;
            }
            i = i + 1;
        }
        assert(self@.data.take(i as int) =~= self@.data);
        proof {
            lemma_max_value(self@.data);
            assert forall|i: int| 0 <= i < self.data@.len() implies self.data@[i].value <= max_value_so_far by {
                assert(self@.data[i] == self.data@[i]@);
            }
            if max_value_so_far != 0 {
                let k = choose|i: int| 0 <= i < self@.data.len() && self@.data[i].value == max_value(self@.data);
                assert(self@.data[k] == self.data@[k]@);
            }
        }
        max_value_so_far
    }
}

/// The trend that a left-to-right scan keeps: it starts from the empty trend
/// and takes a trend only when its largest value is strictly above the kept one's.
pub open spec fn strongest(ts: Seq<TrendView>) -> TrendView
    decreases ts.len(),
{
    if ts.len() == 0 {
        empty_trend()
    } else {
        let best = strongest(ts.drop_last());
        if max_value(ts.last().data) > max_value(best.data) {
            ts.last()
        } else {
            best
        }
    }
}

/// The scan keeps the first trend with the largest value of all; when every
/// trend peaks at 0 it keeps the empty trend.
pub proof fn lemma_strongest(ts: Seq<TrendView>)
    ensures
        forall|i: int| 0 <= i < ts.len() ==> max_value(ts[i].data) <= max_value(strongest(ts).data),
        (strongest(ts) == empty_trend() && forall|i: int| 0 <= i < ts.len() ==> max_value(ts[i].data) == 0)
            || exists|i: int| 0 <= i < ts.len() && strongest(ts) == ts[i] && max_value(ts[i].data) > 0
                && forall|j: int| 0 <= j < i ==> max_value(ts[j].data) < max_value(ts[i].data),
    decreases ts.len(),
{
    if ts.len() > 0 {
        let pre = ts.drop_last();
        lemma_strongest(pre);
        assert(max_value(empty_trend().data) == 0);
        assert forall|i: int| 0 <= i < ts.len() implies max_value(ts[i].data) <= max_value(strongest(ts).data) by {
            if i < ts.len() - 1 {
                assert(ts[i] == pre[i]);
            }
        }
        if max_value(ts.last().data) > max_value(strongest(pre).data) {
            let i = ts.len() - 1;
            assert forall|j: int| 0 <= j < i implies max_value(ts[j].data) < max_value(ts[i].data) by {
                assert(ts[j] == pre[j]);
            }
        } else if strongest(pre) == empty_trend() && forall|i: int| 0 <= i < pre.len() ==> max_value(pre[i].data) == 0 {
            assert forall|i: int| 0 <= i < ts.len() implies max_value(ts[i].data) == 0 by {
                if i < ts.len() - 1 {
                    assert(ts[i] == pre[i]);
                }
            }
        } else {
            let k = choose|i: int| 0 <= i < pre.len() && strongest(pre) == pre[i] && max_value(pre[i].data) > 0
                && forall|j: int| 0 <= j < i ==> max_value(pre[j].data) < max_value(pre[i].data);
            assert(ts[k] == pre[k]);
            assert forall|j: int| 0 <= j < k implies max_value(ts[j].data) < max_value(ts[k].data) by {
                assert(ts[j] == pre[j]);
            }
        }
    }
}

/// Keeps the trend with the largest value: the first one that reaches it,
/// or an empty trend when no trend rises above 0.
pub fn strongest_trend(trends: Vec<Trend>) -> (best: Trend)
    ensures
        best@ == strongest(trends_view(trends@)),
{
    let ghost tv = trends_view(trends@);
    let mut best = Trend::new();
    let mut best_max: u8 = 0;
    let mut rest = trends;
    let ghost mut done: int = 0;
    assert(tv.take(0) =~= Seq::<TrendView>::empty());
    while rest.len() > 0
        invariant
            0 <= done <= tv.len(),
            rest@.len() == tv.len() - done,
            forall|i: int| 0 <= i < rest@.len() ==> #[trigger] rest@[i]@ == tv[done + i],
            best@ == strongest(tv.take(done)),
            best_max == max_value(best@.data),
        decreases rest@.len(),
    {
        let t = rest.remove(0);
        assert(t@ == tv[done]);
        assert(tv.take(done + 1).drop_last() =~= tv.take(done));
        let m = t.find_max_value();
        if m > best_max {
            best = t;
            best_max = m;
        }
        proof {
            done = done + 1;
        }
    }
    assert(tv.take(done) =~= tv);
    best
}

} // verus!

verus! {

/// The points of several keywords at one moment.
pub struct ZippedData {
    pub time: u32,
    pub formatted_time: String,
    pub value: Vec<u8>,
}

/// The plain value of a [`ZippedData`].
pub struct ZippedView {
    pub time: u32,
    pub formatted_time: Seq<char>,
    pub value: Seq<u8>,
}

impl View for ZippedData {
    type V = ZippedView;

    open spec fn view(&self) -> ZippedView {
        ZippedView { time: self.time, formatted_time: self.formatted_time@, value: self.value@ }
    }
}

/// The answer to a trend request: the keywords and, for each moment, their values.
pub struct TrendResponse {
    pub titles: Vec<String>,
    pub data: Vec<ZippedData>,
}

/// The plain value of a [`TrendResponse`].
pub struct TrendResponseView {
    pub titles: Seq<Seq<char>>,
    pub data: Seq<ZippedView>,
}

impl View for TrendResponse {
    type V = TrendResponseView;

    open spec fn view(&self) -> TrendResponseView {
        TrendResponseView {
            titles: self.titles@.map_values(|t: String| t@),
            data: self.data@.map_values(|z: ZippedData| z@),
        }
    }
}

/// The plain value of a timing table: each moment as seconds and as display text.
pub open spec fn timing_view(t: Seq<(u32, String)>) -> Seq<(u32, Seq<char>)> {
    t.map_values(|p: (u32, String)| (p.0, p.1@))
}

/// Each title once, in the order of its first occurrence.
pub open spec fn first_occurrences(s: Seq<Seq<char>>) -> Seq<Seq<char>>
    decreases s.len(),
{
    if s.len() == 0 {
        Seq::empty()
    } else {
        let pre = first_occurrences(s.drop_last());
        if pre.contains(s.last()) {
            pre
        } else {
            pre.push(s.last())
        }
    }
}

/// `first_occurrences` holds each title of the input exactly once.
pub proof fn lemma_first_occurrences(s: Seq<Seq<char>>)
    ensures
        first_occurrences(s).no_duplicates(),
        forall|x: Seq<char>| first_occurrences(s).contains(x) <==> s.contains(x),
    decreases s.len(),
{
    if s.len() > 0 {
        let pre = s.drop_last();
        lemma_first_occurrences(pre);
        let l = s.last();
        let fo = first_occurrences(pre);
        assert(s =~= pre.push(l));
        assert forall|x: Seq<char>| s.contains(x) <==> (pre.contains(x) || x == l) by {
            if s.contains(x) && x != l {
                let k = choose|k: int| 0 <= k < s.len() && s[k] == x;
                assert(pre[k] == x);
            }
            if pre.contains(x) {
                let k = choose|k: int| 0 <= k < pre.len() && pre[k] == x;
                assert(s[k] == x);
            }
            if x == l {
                assert(s[s.len() - 1] == x);
            }
        }
        if !fo.contains(l) {
            let fs = fo.push(l);
            assert forall|x: Seq<char>| fs.contains(x) <==> (fo.contains(x) || x == l) by {
                if fs.contains(x) && x != l {
                    let k = choose|k: int| 0 <= k < fs.len() && fs[k] == x;
                    assert(fo[k] == x);
                }
                if fo.contains(x) {
                    let k = choose|k: int| 0 <= k < fo.len() && fo[k] == x;
                    assert(fs[k] == x);
                }
                if x == l {
                    assert(fs[fs.len() - 1] == x);
                }
            }
            assert forall|i: int, j: int| 0 <= i < fs.len() && 0 <= j < fs.len() && i != j implies fs[i] != fs[j] by {
                if i < fo.len() && j < fo.len() {
                } else if i < fo.len() {
                    assert(fo.contains(fs[i]));
                } else if j < fo.len() {
                    assert(fo.contains(fs[j]));
                }
            }
        }
    }
}

/// The titles of the trends.
pub open spec fn titles_of(ts: Seq<TrendView>) -> Seq<Seq<char>> {
    ts.map_values(|t: TrendView| t.title)
}

/// The trends can be zipped without running out of points or of timing rows:
/// there is a first trend, and neither another trend nor the timing table is
/// shorter than it.
pub open spec fn zip_fits(ts: Seq<TrendView>, timing: Seq<(u32, Seq<char>)>) -> bool {
    &&& ts.len() > 0
    &&& timing.len() >= ts[0].data.len()
    &&& forall|i: int| 0 <= i < ts.len() ==> #[trigger] ts[i].data.len() >= ts[0].data.len()
}

/// The response that zips trends: one row per point of the first trend, holding
/// the timing row and every trend's value there; the titles (each once) are
/// listed only when there is at least one row.
pub open spec fn zipped(ts: Seq<TrendView>, timing: Seq<(u32, Seq<char>)>) -> TrendResponseView {
    let n = ts[0].data.len();
    TrendResponseView {
        titles: if n > 0 {
            first_occurrences(titles_of(ts))
        } else {
            Seq::empty()
        },
        data: Seq::new(
            n,
            |i: int|
                ZippedView {
                    time: timing[i].0,
                    formatted_time: timing[i].1,
                    value: ts.map_values(|t: TrendView| t.data[i].value),
                },
        ),
    }
}

/// Whether `zip_trends` can zip these trends with this timing table.
pub fn zip_fits_exec(trends: &Vec<Trend>, timing: &Vec<(u32, String)>) -> (r: bool)
    ensures
        r == zip_fits(trends_view(trends@), timing_view(timing@)),
{
    let ghost tv = trends_view(trends@);
    if trends.len() == 0 {
        return false;
    }
    let n = trends[0].data.len();
    assert(tv[0].data.len() == n);
    if timing.len() < n {
        return false;
    }
    let mut i: usize = 0;
    while i < trends.len()
        invariant
            i <= trends@.len(),
            tv == trends_view(trends@),
            trends@.len() > 0,
            n == tv[0].data.len(),
            forall|k: int| 0 <= k < i ==> #[trigger] tv[k].data.len() >= n,
        decreases trends@.len() - i,
    {
        assert(tv[i as int].data.len() == trends@[i as int].data@.len());
        if trends[i].data.len() < n {
            return false;
        }
        i = i + 1;
    }
    true
}

/// Zips trends into a response: for each point of the first trend, the timing
/// row and every trend's value there. `None` when the trends or the timing
/// table are too short for that (zipping would index past their end).
pub fn zip_trends(trends: &Vec<Trend>, timing: &Vec<(u32, String)>) -> (r: Option<TrendResponse>)
    ensures
        r is Some <==> zip_fits(trends_view(trends@), timing_view(timing@)),
        r matches Some(x) ==> x@ == zipped(trends_view(trends@), timing_view(timing@)),
{
    if !zip_fits_exec(trends, timing) {
        return None;
    }
    let ghost tv = trends_view(trends@);
    let ghost tm = timing_view(timing@);
    let n = trends[0].data.len();
    let mut titles: Vec<String> = Vec::new();
    if n > 0 {
        let mut k: usize = 0;
        assert(titles_of(tv).take(0) =~= Seq::<Seq<char>>::empty());
        while k < trends.len()
            invariant
                k <= trends@.len(),
                tv == trends_view(trends@),
                titles@.map_values(|t: String| t@) == first_occurrences(titles_of(tv).take(k as int)),
            decreases trends@.len() - k,
        {
            assert(titles_of(tv).take(k + 1).drop_last() =~= titles_of(tv).take(k as int));
            assert(titles_of(tv)[k as int] == trends@[k as int].title@);
            if !contains_string(&titles, &trends[k].title) {
                titles.push(trends[k].title.clone());
            }
            assert(titles@.map_values(|t: String| t@) =~= first_occurrences(titles_of(tv).take(k + 1)));
            k = k + 1;
        }
        assert(titles_of(tv).take(trends@.len() as int) =~= titles_of(tv));
    }
    let mut rows: Vec<ZippedData> = Vec::new();
    let mut i: usize = 0;
    while i < n
        invariant
            i <= n,
            tv == trends_view(trends@),
            tm == timing_view(timing@),
            zip_fits(tv, tm),
            n == tv[0].data.len(),
            rows@.len() == i,
            forall|j: int| 0 <= j < i ==> #[trigger] rows@[j]@ == zipped(tv, tm).data[j],
        decreases n - i,
    {
        let mut values: Vec<u8> = Vec::new();
        let mut k: usize = 0;
        while k < trends.len()
            invariant
                k <= trends@.len(),
                i < n,
                tv == trends_view(trends@),
                zip_fits(tv, tm),
                n == tv[0].data.len(),
                values@.len() == k,
                forall|j: int| 0 <= j < k ==> values@[j] == #[trigger] tv[j].data[i as int].value,
            decreases trends@.len() - k,
        {
            assert(tv[k as int].data.len() >= n);
            assert(tv[k as int].data[i as int] == trends@[k as int].data@[i as int]@);
            values.push(trends[k].data[i].value);
            k = k + 1;
        }
        assert(tm[i as int] == (timing@[i as int].0, timing@[i as int].1@));
        let row = ZippedData { time: timing[i].0, formatted_time: timing[i].1.clone(), value: values };
        assert(row@.value =~= tv.map_values(|t: TrendView| t.data[i as int].value));
        rows.push(row);
        i = i + 1;
    }
    let r = TrendResponse { titles, data: rows };
    assert(r@.data =~= zipped(tv, tm).data);
    if n == 0 {
        assert(r@.titles =~= Seq::<Seq<char>>::empty());
    }
    Some(r)
}

} // verus!
