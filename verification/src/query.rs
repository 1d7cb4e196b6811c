//! The trend query as a state machine: the decisions of a query over any
//! number of keywords, while the caller performs the HTTP requests.
//!
//! Upstream compares at most five keywords per request and scales each
//! request's values to its own peak. With more than five keywords the query
//! cuts them into groups of four, keeps the strongest keyword of each group,
//! plays those against each other in further rounds until one is left, and
//! finally requests every group again together with that keyword, so that all
//! values share one scale.

use vstd::prelude::*;
use crate::text::{strings_view, copy_strings, contains_string};
use crate::trend::{Trend, TrendView, TrendResponse, TrendResponseView, trends_view, timing_view, strongest, strongest_trend, titles_of, zip_fits, zipped, zip_trends};
use crate::chunks::{chunks_of, group_size, lists_view, chunk_keywords, keyword_group_size};
use crate::request::{ReqParams, QueryError, TimelinePointView, explore_url_text, explore_url, reply_body, strip_reply_guard, data_request_of, data_request, timeline_json, timeline_points, timeline_outcome, apply_timeline, points_view};

verus! {

/// A trend request: the parameters and the keywords to compare.
pub struct TrendRequest {
    pub req_params: ReqParams,
    pub req_list: Vec<String>,
}

/// The step of the query that the next event answers.
#[derive(PartialEq, Eq, Structural, Clone, Copy, Debug)]
pub enum Stage {
    /// The session request is out.
    Session,
    /// The explore request of the current group is out.
    Explore,
    /// The data request of the current group is out.
    Data,
    /// The query has answered or failed.
    Finished,
}

/// Which part of the query the current group belongs to.
#[derive(PartialEq, Eq, Structural, Clone, Copy, Debug)]
pub enum Purpose {
    /// A group of the requested keywords, to find its strongest keyword.
    Main,
    /// A group of a tournament round among the strongest keywords.
    Round,
    /// A group of the requested keywords together with the overall strongest.
    Final,
}

/// The state of a running query.
pub struct QueryState {
    pub params: ReqParams,
    pub req_list: Vec<String>,
    pub lists_main: Vec<Vec<String>>,
    pub stage: Stage,
    pub purpose: Purpose,
    pub round_lists: Vec<Vec<String>>,
    pub index: usize,
    pub current: Vec<String>,
    pub max_trends: Vec<Trend>,
    pub full: Vec<Trend>,
    pub max_title: String,
    pub timing: Vec<(u32, String)>,
    pub timing_set: bool,
    pub cookie: Vec<u8>,
}

/// The plain value of a [`QueryState`].
pub struct QueryView {
    pub params: ReqParams,
    pub req_list: Seq<Seq<char>>,
    pub lists_main: Seq<Seq<Seq<char>>>,
    pub stage: Stage,
    pub purpose: Purpose,
    pub round_lists: Seq<Seq<Seq<char>>>,
    pub index: int,
    pub current: Seq<Seq<char>>,
    pub max_trends: Seq<TrendView>,
    pub full: Seq<TrendView>,
    pub max_title: Seq<char>,
    pub timing: Seq<(u32, Seq<char>)>,
    pub timing_set: bool,
    pub cookie: Seq<u8>,
}

impl View for QueryState {
    type V = QueryView;

    open spec fn view(&self) -> QueryView {
        QueryView {
            params: self.params,
            req_list: strings_view(self.req_list@),
            lists_main: lists_view(self.lists_main@),
            stage: self.stage,
            purpose: self.purpose,
            round_lists: lists_view(self.round_lists@),
            index: self.index as int,
            current: strings_view(self.current@),
            max_trends: trends_view(self.max_trends@),
            full: trends_view(self.full@),
            max_title: self.max_title@,
            timing: timing_view(self.timing@),
            timing_set: self.timing_set,
            cookie: self.cookie@,
        }
    }
}

/// What the caller does next.
pub enum QueryAction {
    /// GET `https://trends.google.com` with the `Host` header, and answer with
    /// the `Set-Cookie` header of the reply.
    OpenSession,
    /// GET the URL with the `Host` header and this cookie, and answer with the
    /// reply's text.
    Fetch { url: String, cookie: Vec<u8> },
    /// The query's answer.
    Respond(TrendResponse),
    /// The query stops without an answer.
    Fail(QueryError),
}

/// The plain value of a [`QueryAction`].
pub enum ActionView {
    OpenSession,
    Fetch { url: Seq<char>, cookie: Seq<u8> },
    Respond(TrendResponseView),
    Fail(QueryError),
}

impl View for QueryAction {
    type V = ActionView;

    open spec fn view(&self) -> ActionView {
        match self {
            QueryAction::OpenSession => ActionView::OpenSession,
            QueryAction::Fetch { url, cookie } => ActionView::Fetch { url: url@, cookie: cookie@ },
            QueryAction::Respond(r) => ActionView::Respond(r@),
            QueryAction::Fail(e) => ActionView::Fail(*e),
        }
    }
}

/// What the caller hands back after an action.
pub enum QueryEvent {
    /// The `Set-Cookie` header of the session reply, if there was one.
    Session(Option<Vec<u8>>),
    /// The text of a reply.
    Reply(String),
}

/// The plain value of a [`QueryEvent`].
pub enum EventView {
    Session(Option<Seq<u8>>),
    Reply(Seq<char>),
}

impl View for QueryEvent {
    type V = EventView;

    open spec fn view(&self) -> EventView {
        match self {
            QueryEvent::Session(Some(c)) => EventView::Session(Some(c@)),
            QueryEvent::Session(None) => EventView::Session(None),
            QueryEvent::Reply(t) => EventView::Reply(t@),
        }
    }
}

// ---- The model ----------------------------------------------------------

/// The query stops with an error.
pub open spec fn fail(s: QueryView, e: QueryError) -> (QueryView, ActionView) {
    (QueryView { stage: Stage::Finished, ..s }, ActionView::Fail(e))
}

/// The query answers with the zipped trends, or fails where they cannot be zipped.
pub open spec fn answer(s: QueryView, ts: Seq<TrendView>) -> (QueryView, ActionView) {
    if zip_fits(ts, s.timing) {
        (QueryView { stage: Stage::Finished, ..s }, ActionView::Respond(zipped(ts, s.timing)))
    } else {
        fail(s, QueryError::Malformed)
    }
}

/// Sends the explore request of a group.
pub open spec fn request_group(s: QueryView, group: Seq<Seq<char>>, purpose: Purpose, index: int) -> (QueryView, ActionView) {
    if group.len() == 0 {
        fail(s, QueryError::Malformed)
    } else {
        (
            QueryView { stage: Stage::Explore, purpose, index, current: group, ..s },
            ActionView::Fetch { url: explore_url_text(s.params, group), cookie: s.cookie },
        )
    }
}

/// The final group `i`: the requested group, with the overall strongest keyword
/// added when it is not in it.
pub open spec fn final_group(s: QueryView, i: int) -> Seq<Seq<char>> {
    if s.lists_main[i].contains(s.max_title) {
        s.lists_main[i]
    } else {
        s.lists_main[i].push(s.max_title)
    }
}

/// Goes on with the final group `i`, or answers when all are done.
pub open spec fn begin_final(s: QueryView, i: int) -> (QueryView, ActionView) {
    if 0 <= i < s.lists_main.len() {
        request_group(s, final_group(s, i), Purpose::Final, i)
    } else {
        answer(s, s.full)
    }
}

/// Starts a tournament round while more than one strongest keyword is left;
/// with one left, starts the final groups.
pub open spec fn start_round(s: QueryView) -> (QueryView, ActionView) {
    if s.max_trends.len() > 1 {
        let list = titles_of(s.max_trends);
        let lists = chunks_of(list, group_size(list.len()));
        let s1 = QueryView { max_trends: Seq::empty(), round_lists: lists, ..s };
        if lists.len() > 0 {
            request_group(s1, lists[0], Purpose::Round, 0)
        } else {
            fail(s1, QueryError::Malformed)
        }
    } else if s.max_trends.len() == 0 {
        fail(s, QueryError::Malformed)
    } else {
        begin_final(QueryView { max_title: s.max_trends[0].title, ..s }, 0)
    }
}

/// Goes on with the main group `i`, or starts the rounds when all are done.
pub open spec fn begin_main(s: QueryView, i: int) -> (QueryView, ActionView) {
    if 0 <= i < s.lists_main.len() {
        request_group(s, s.lists_main[i], Purpose::Main, i)
    } else {
        start_round(s)
    }
}

/// The position of the last trend with this title, or -1.
pub open spec fn last_with_title(s: Seq<TrendView>, t: Seq<char>) -> int
    decreases s.len(),
{
    if s.len() == 0 {
        -1
    } else if s.last().title == t {
        s.len() - 1
    } else {
        last_with_title(s.drop_last(), t)
    }
}

/// The trends, leaving out those titled `t` except the one at position `keep`.
pub open spec fn keep_at(s: Seq<TrendView>, t: Seq<char>, keep: int) -> Seq<TrendView>
    decreases s.len(),
{
    if s.len() == 0 {
        s
    } else {
        let pre = keep_at(s.drop_last(), t, keep);
        if s.last().title != t || s.len() - 1 == keep {
            pre.push(s.last())
        } else {
            pre
        }
    }
}

/// What removing the first trend titled `t` while there are several leaves:
/// only the last trend titled `t`, the others untouched.
pub open spec fn keep_last(s: Seq<TrendView>, t: Seq<char>) -> Seq<TrendView> {
    keep_at(s, t, last_with_title(s, t))
}

/// What the data of the current group leads to, once its trends are read.
pub open spec fn on_trends(s: QueryView, ts: Seq<TrendView>, timing: Seq<(u32, Seq<char>)>) -> (QueryView, ActionView) {
    let s1 = QueryView { timing, timing_set: true, ..s };
    match s.purpose {
        Purpose::Main => if s.req_list.len() <= 5 {
            answer(s1, ts)
        } else {
            begin_main(QueryView { max_trends: s1.max_trends.push(strongest(ts)), ..s1 }, s.index + 1)
        },
        Purpose::Round => {
            let s2 = QueryView { max_trends: s1.max_trends.push(strongest(ts)), ..s1 };
            if 0 <= s.index + 1 < s.round_lists.len() {
                request_group(s2, s.round_lists[s.index + 1], Purpose::Round, s.index + 1)
            } else {
                start_round(s2)
            }
        },
        Purpose::Final => begin_final(QueryView { full: keep_last(s1.full + ts, s.max_title), ..s1 }, s.index + 1),
    }
}

/// The first state and action of a query.
pub open spec fn query_start(params: ReqParams, req_list: Seq<Seq<char>>) -> (QueryView, ActionView) {
    (
        QueryView {
            params,
            req_list,
            lists_main: chunks_of(req_list, group_size(req_list.len())),
            stage: Stage::Session,
            purpose: Purpose::Main,
            round_lists: Seq::empty(),
            index: 0,
            current: Seq::empty(),
            max_trends: Seq::empty(),
            full: Seq::empty(),
            max_title: Seq::empty(),
            timing: Seq::empty(),
            timing_set: false,
            cookie: Seq::empty(),
        },
        ActionView::OpenSession,
    )
}

/// One step of the query: the next state and action after an event.
pub open spec fn query_step(s: QueryView, e: EventView) -> (QueryView, ActionView) {
    match (s.stage, e) {
        (Stage::Session, EventView::Session(None)) => answer(s, s.full),
        (Stage::Session, EventView::Session(Some(c))) => begin_main(QueryView { cookie: c, ..s }, 0),
        (Stage::Explore, EventView::Reply(text)) => match reply_body(text) {
            None => fail(s, QueryError::Malformed),
            Some(body) => match data_request_of(s.params, body) {
                Err(err) => fail(s, err),
                Ok(url) => (QueryView { stage: Stage::Data, ..s }, ActionView::Fetch { url, cookie: s.cookie }),
            },
        },
        (Stage::Data, EventView::Reply(text)) => match reply_body(text) {
            None => fail(s, QueryError::Malformed),
            Some(body) => match timeline_json(body) {
                None => fail(s, QueryError::InvalidJson),
                Some(None) => fail(s, QueryError::Malformed),
                Some(Some(points)) => match timeline_outcome(s.current, points, s.timing, s.timing_set) {
                    Err(err) => fail(s, err),
                    Ok(r) => on_trends(s, r.0, r.1),
                },
            },
        },
        _ => fail(s, QueryError::UnexpectedEvent),
    }
}

} // verus!

verus! {

// ---- The machine ----------------------------------------------------------

fn fail_exec(s: QueryState, e: QueryError) -> (r: (QueryState, QueryAction))
    ensures
        r.0@ == fail(s@, e).0,
        r.1@ == fail(s@, e).1,
{
    (QueryState { stage: Stage::Finished, ..s }, QueryAction::Fail(e))
}

fn answer_exec(s: QueryState, ts: &Vec<Trend>) -> (r: (QueryState, QueryAction))
    ensures
        r.0@ == answer(s@, trends_view(ts@)).0,
        r.1@ == answer(s@, trends_view(ts@)).1,
{
    match zip_trends(ts, &s.timing) {
        Some(resp) => (QueryState { stage: Stage::Finished, ..s }, QueryAction::Respond(resp)),
        None => fail_exec(s, QueryError::Malformed),
    }
}

fn request_group_exec(s: QueryState, group: Vec<String>, purpose: Purpose, index: usize) -> (r: (QueryState, QueryAction))
    ensures
        r.0@ == request_group(s@, strings_view(group@), purpose, index as int).0,
        r.1@ == request_group(s@, strings_view(group@), purpose, index as int).1,
{
    if group.len() == 0 {
        return fail_exec(s, QueryError::Malformed);
    }
    let url = explore_url(&s.params, &group);
    let cookie = s.cookie.clone();
    assert(cookie@ == s.cookie@);
    (QueryState { stage: Stage::Explore, purpose, index, current: group, ..s }, QueryAction::Fetch { url, cookie })
}

fn final_group_exec(s: &QueryState, i: usize) -> (g: Vec<String>)
    requires
        i < s.lists_main@.len(),
    ensures
        strings_view(g@) == final_group(s@, i as int),
{
    assert(s@.lists_main[i as int] == strings_view(s.lists_main@[i as int]@));
    let mut g = copy_strings(&s.lists_main[i]);
    if !contains_string(&g, &s.max_title) {
        let ghost before = strings_view(g@);
        let t = s.max_title.clone();
        g.push(t);
        assert(strings_view(g@) =~= before.push(s.max_title@));
    }
    g
}

fn begin_final_exec(s: QueryState, i: usize) -> (r: (QueryState, QueryAction))
    ensures
        r.0@ == begin_final(s@, i as int).0,
        r.1@ == begin_final(s@, i as int).1,
{
    if i < s.lists_main.len() {
        let g = final_group_exec(&s, i);
        request_group_exec(s, g, Purpose::Final, i)
    } else {
        let full = copy_trends(&s.full);
        answer_exec(s, &full)
    }
}

fn copy_trends(v: &Vec<Trend>) -> (r: Vec<Trend>)
    ensures
        trends_view(r@) == trends_view(v@),
{
    let mut r: Vec<Trend> = Vec::new();
    let mut i: usize = 0;
    while i < v.len()
        invariant
            i <= v@.len(),
            trends_view(r@) == trends_view(v@).take(i as int),
        decreases v@.len() - i,
    {
        let ghost before = trends_view(r@);
        let t = copy_trend(&v[i]);
        r.push(t);
        assert(trends_view(r@) =~= before.push(v@[i as int]@));
        assert(trends_view(v@).take(i + 1) =~= trends_view(v@).take(i as int).push(v@[i as int]@));
        i = i + 1;
    }
    assert(trends_view(v@).take(v@.len() as int) =~= trends_view(v@));
    r
}

fn copy_trend(t: &Trend) -> (r: Trend)
    ensures
        r@ == t@,
{
    let mut data: Vec<crate::trend::Data> = Vec::new();
    let mut i: usize = 0;
    while i < t.data.len()
        invariant
            i <= t.data@.len(),
            crate::trend::data_view(data@) == crate::trend::data_view(t.data@).take(i as int),
        decreases t.data@.len() - i,
    {
        let ghost before = crate::trend::data_view(data@);
        let d = crate::trend::Data { time: t.data[i].time, formatted_time: t.data[i].formatted_time.clone(), value: t.data[i].value };
        data.push(d);
        assert(crate::trend::data_view(data@) =~= before.push(t.data@[i as int]@));
        assert(crate::trend::data_view(t.data@).take(i + 1) =~= crate::trend::data_view(t.data@).take(i as int).push(t.data@[i as int]@));
        i = i + 1;
    }
    assert(crate::trend::data_view(t.data@).take(t.data@.len() as int) =~= crate::trend::data_view(t.data@));
    Trend { title: t.title.clone(), data }
}

fn titles_exec(ts: &Vec<Trend>) -> (r: Vec<String>)
    ensures
        strings_view(r@) == titles_of(trends_view(ts@)),
{
    let mut r: Vec<String> = Vec::new();
    let mut i: usize = 0;
    while i < ts.len()
        invariant
            i <= ts@.len(),
            strings_view(r@) == titles_of(trends_view(ts@)).take(i as int),
        decreases ts@.len() - i,
    {
        let ghost before = strings_view(r@);
        let t = ts[i].title.clone();
        r.push(t);
        assert(strings_view(r@) =~= before.push(ts@[i as int].title@));
        assert(titles_of(trends_view(ts@)).take(i + 1) =~= titles_of(trends_view(ts@)).take(i as int).push(ts@[i as int].title@));
        i = i + 1;
    }
    assert(titles_of(trends_view(ts@)).take(ts@.len() as int) =~= titles_of(trends_view(ts@)));
    r
}

fn start_round_exec(s: QueryState) -> (r: (QueryState, QueryAction))
    ensures
        r.0@ == start_round(s@).0,
        r.1@ == start_round(s@).1,
{
    if s.max_trends.len() > 1 {
        let list = titles_exec(&s.max_trends);
        let n = keyword_group_size(list.len());
        let lists = chunk_keywords(&list, n);
        let s1 = QueryState { max_trends: Vec::new(), round_lists: lists, ..s };
        assert(s1@.max_trends =~= Seq::<TrendView>::empty());
        if s1.round_lists.len() > 0 {
            assert(s1@.round_lists[0] == strings_view(s1.round_lists@[0]@));
            let g = copy_strings(&s1.round_lists[0]);
            request_group_exec(s1, g, Purpose::Round, 0)
        } else {
            fail_exec(s1, QueryError::Malformed)
        }
    } else if s.max_trends.len() == 0 {
        fail_exec(s, QueryError::Malformed)
    } else {
        let t = s.max_trends[0].title.clone();
        begin_final_exec(QueryState { max_title: t, ..s }, 0)
    }
}

fn begin_main_exec(s: QueryState, i: usize) -> (r: (QueryState, QueryAction))
    ensures
        r.0@ == begin_main(s@, i as int).0,
        r.1@ == begin_main(s@, i as int).1,
{
    if i < s.lists_main.len() {
        assert(s@.lists_main[i as int] == strings_view(s.lists_main@[i as int]@));
        let g = copy_strings(&s.lists_main[i]);
        request_group_exec(s, g, Purpose::Main, i)
    } else {
        start_round_exec(s)
    }
}

proof fn lemma_last_with_title(s: Seq<TrendView>, t: Seq<char>)
    ensures
        -1 <= last_with_title(s, t) < s.len(),
        last_with_title(s, t) >= 0 ==> s[last_with_title(s, t)].title == t,
        forall|k: int| last_with_title(s, t) < k < s.len() ==> #[trigger] s[k].title != t,
    decreases s.len(),
{
    if s.len() > 0 && s.last().title != t {
        lemma_last_with_title(s.drop_last(), t);
        assert forall|k: int| last_with_title(s, t) < k < s.len() implies #[trigger] s[k].title != t by {
            if k < s.len() - 1 {
                assert(s[k] == s.drop_last()[k]);
            }
        }
    }
}

fn keep_last_exec(full: Vec<Trend>, t: &String) -> (r: Vec<Trend>)
    ensures
        trends_view(r@) == keep_last(trends_view(full@), t@),
{
    let ghost fv = trends_view(full@);
    // Find the last trend titled `t`.
    let mut last: usize = 0;
    let mut found = false;
    let mut j: usize = 0;
    while j < full.len()
        invariant
            j <= full@.len(),
            fv == trends_view(full@),
            found ==> last < j,
            (if found { last as int } else { -1 }) == last_with_title(fv.take(j as int), t@),
        decreases full@.len() - j,
    {
        assert(fv.take(j + 1).drop_last() =~= fv.take(j as int));
        assert(fv.take(j + 1).last() == full@[j as int]@);
        if full[j].title == *t {
            last = j;
            found = true;
        }
        j = j + 1;
    }
    assert(fv.take(full@.len() as int) =~= fv);
    let ghost keep = if found { last as int } else { -1 };
    let mut out: Vec<Trend> = Vec::new();
    let n = full.len();
    let mut rest = full;
    let mut i: usize = 0;
    assert(fv.take(0) =~= Seq::<TrendView>::empty());
    while rest.len() > 0
        invariant
            fv.len() == n,
            i <= fv.len(),
            rest@.len() == fv.len() - i,
            forall|k: int| 0 <= k < rest@.len() ==> #[trigger] rest@[k]@ == fv[i + k],
            keep == last_with_title(fv, t@),
            found ==> keep == last as int,
            !found ==> keep == -1,
            trends_view(out@) == keep_at(fv.take(i as int), t@, keep),
        decreases rest@.len(),
    {
        let x = rest.remove(0);
        assert(x@ == fv[i as int]);
        assert(fv.take(i + 1).drop_last() =~= fv.take(i as int));
        if x.title != *t || (found && i == last) {
            let ghost before = trends_view(out@);
            out.push(x);
            assert(trends_view(out@) =~= before.push(x@));
        }
        i = i + 1;
    }
    assert(fv.take(i as int) =~= fv);
    out
}

fn on_trends_exec(s: QueryState, ts: Vec<Trend>, timing: Vec<(u32, String)>) -> (r: (QueryState, QueryAction))
    ensures
        r.0@ == on_trends(s@, trends_view(ts@), timing_view(timing@)).0,
        r.1@ == on_trends(s@, trends_view(ts@), timing_view(timing@)).1,
{
    let purpose = s.purpose;
    let index = s.index;
    let few = s.req_list.len() <= 5;
    let ghost sv = s@;
    let ghost tv = timing_view(timing@);
    let s1 = QueryState { timing, timing_set: true, ..s };
    assert(s1@ == QueryView { timing: tv, timing_set: true, ..sv });
    match purpose {
        Purpose::Main => {
            if few {
                answer_exec(s1, &ts)
            } else {
                let best = strongest_trend(ts);
                let mut s2 = s1;
                let ghost before = trends_view(s2.max_trends@);
                s2.max_trends.push(best);
                assert(trends_view(s2.max_trends@) =~= before.push(best@));
                assert(s2@ == QueryView { max_trends: s1@.max_trends.push(strongest(trends_view(ts@))), ..s1@ });
                if index < usize::MAX {
                    begin_main_exec(s2, index + 1)
                } else {
                    let m = s2.lists_main.len();
                    assert(sv.index + 1 > m);
                    start_round_exec(s2)
                }
            }
        },
        Purpose::Round => {
            let best = strongest_trend(ts);
            let mut s2 = s1;
            let ghost before = trends_view(s2.max_trends@);
            s2.max_trends.push(best);
            assert(trends_view(s2.max_trends@) =~= before.push(best@));
            assert(s2@ == QueryView { max_trends: s1@.max_trends.push(strongest(trends_view(ts@))), ..s1@ });
            let rl = s2.round_lists.len();
            if index < usize::MAX && index + 1 < rl {
                assert(s2@.round_lists[index + 1] == strings_view(s2.round_lists@[index + 1]@));
                let g = copy_strings(&s2.round_lists[index + 1]);
                request_group_exec(s2, g, Purpose::Round, index + 1)
            } else {
                assert(!(0 <= sv.index + 1 < sv.round_lists.len()));
                start_round_exec(s2)
            }
        },
        Purpose::Final => {
            let mut s2 = s1;
            let ghost before = trends_view(s2.full@);
            let mut more = ts;
            s2.full.append(&mut more);
            assert(trends_view(s2.full@) =~= before + trends_view(ts@));
            let full = keep_last_exec(s2.full, &s2.max_title);
            let s3 = QueryState { full, ..s2 };
            assert(s3@ == QueryView { full: keep_last(s1@.full + trends_view(ts@), sv.max_title), ..s1@ });
            if index < usize::MAX {
                begin_final_exec(s3, index + 1)
            } else {
                let m = s3.lists_main.len();
                assert(sv.index + 1 > m);
                let all = copy_trends(&s3.full);
                answer_exec(s3, &all)
            }
        },
    }
}

impl TrendRequest {
    /// Starts the query: its first state, and the session request to send.
    /// There must be at least one keyword: with none, no group is ever
    /// requested and nothing can be answered.
    pub fn query(self) -> (r: (QueryState, QueryAction))
        requires
            self.req_list@.len() > 0,
        ensures
            r.0@ == query_start(self.req_params, strings_view(self.req_list@)).0,
            r.1@ == query_start(self.req_params, strings_view(self.req_list@)).1,
    {
        let n = keyword_group_size(self.req_list.len());
        let lists_main = chunk_keywords(&self.req_list, n);
        let s = QueryState {
            params: self.req_params,
            req_list: self.req_list,
            lists_main,
            stage: Stage::Session,
            purpose: Purpose::Main,
            round_lists: Vec::new(),
            index: 0,
            current: Vec::new(),
            max_trends: Vec::new(),
            full: Vec::new(),
            max_title: String::new(),
            timing: Vec::new(),
            timing_set: false,
            cookie: Vec::new(),
        };
        assert(s@.round_lists =~= Seq::<Seq<Seq<char>>>::empty());
        assert(s@.current =~= Seq::<Seq<char>>::empty());
        assert(s@.max_trends =~= Seq::<TrendView>::empty());
        assert(s@.full =~= Seq::<TrendView>::empty());
        assert(s@.timing =~= Seq::<(u32, Seq<char>)>::empty());
        (s, QueryAction::OpenSession)
    }
}

impl QueryState {
    /// One step of the query: what the state becomes after the event, and what
    /// the caller does next.
    pub fn step(self, event: QueryEvent) -> (r: (QueryState, QueryAction))
        ensures
            r.0@ == query_step(self@, event@).0,
            r.1@ == query_step(self@, event@).1,
    {
        let s = self;
        match (s.stage, event) {
            (Stage::Session, QueryEvent::Session(None)) => {
                let full = copy_trends(&s.full);
                answer_exec(s, &full)
            },
            (Stage::Session, QueryEvent::Session(Some(c))) => begin_main_exec(QueryState { cookie: c, ..s }, 0),
            (Stage::Explore, QueryEvent::Reply(text)) => match strip_reply_guard(text.as_str()) {
                None => fail_exec(s, QueryError::Malformed),
                Some(body) => match data_request(&s.params, body.as_str()) {
                    Err(err) => fail_exec(s, err),
                    Ok(url) => {
                        let cookie = s.cookie.clone();
                        assert(cookie@ == s.cookie@);
                        (QueryState { stage: Stage::Data, ..s }, QueryAction::Fetch { url, cookie })
                    },
                },
            },
            (Stage::Data, QueryEvent::Reply(text)) => match strip_reply_guard(text.as_str()) {
                None => fail_exec(s, QueryError::Malformed),
                Some(body) => match timeline_points(body.as_str()) {
                    Err(err) => fail_exec(s, err),
                    Ok(points) => {
                        let timing = copy_timing(&s.timing);
                        match apply_timeline(&s.current, &points, timing, s.timing_set) {
                            Err(err) => fail_exec(s, err),
                            Ok(r) => on_trends_exec(s, r.0, r.1),
                        }
                    },
                },
            },
            (_, _) => fail_exec(s, QueryError::UnexpectedEvent),
        }
    }
}

fn copy_timing(t: &Vec<(u32, String)>) -> (r: Vec<(u32, String)>)
    ensures
        timing_view(r@) == timing_view(t@),
{
    let mut r: Vec<(u32, String)> = Vec::new();
    let mut i: usize = 0;
    while i < t.len()
        invariant
            i <= t@.len(),
            timing_view(r@) == timing_view(t@).take(i as int),
        decreases t@.len() - i,
    {
        let ghost before = timing_view(r@);
        let row = (t[i].0, t[i].1.clone());
        r.push(row);
        assert(timing_view(r@) =~= before.push((t@[i as int].0, t@[i as int].1@)));
        assert(timing_view(t@).take(i + 1) =~= timing_view(t@).take(i as int).push((t@[i as int].0, t@[i as int].1@)));
        i = i + 1;
    }
    assert(timing_view(t@).take(t@.len() as int) =~= timing_view(t@));
    r
}

} // verus!

verus! {

// ---- Laws -----------------------------------------------------------------

/// How many trends carry the title `t`.
pub open spec fn title_count(s: Seq<TrendView>, t: Seq<char>) -> nat
    decreases s.len(),
{
    if s.len() == 0 {
        0
    } else {
        title_count(s.drop_last(), t) + if s.last().title == t {
            1nat
        } else {
            0nat
        }
    }
}

/// The trends whose title is not `t`, in order.
pub open spec fn without_title(s: Seq<TrendView>, t: Seq<char>) -> Seq<TrendView>
    decreases s.len(),
{
    if s.len() == 0 {
        s
    } else if s.last().title == t {
        without_title(s.drop_last(), t)
    } else {
        without_title(s.drop_last(), t).push(s.last())
    }
}

proof fn lemma_keep_at(s: Seq<TrendView>, t: Seq<char>, keep: int)
    ensures
        title_count(keep_at(s, t, keep), t) == (if 0 <= keep < s.len() && s[keep].title == t { 1nat } else { 0nat }),
        without_title(keep_at(s, t, keep), t) == without_title(s, t),
    decreases s.len(),
{
    if s.len() > 0 {
        let pre = s.drop_last();
        lemma_keep_at(pre, t, keep);
        let kp = keep_at(pre, t, keep);
        if s.last().title != t || s.len() - 1 == keep {
            assert(keep_at(s, t, keep).drop_last() =~= kp);
        }
        if 0 <= keep < pre.len() {
            assert(s[keep] == pre[keep]);
        }
    }
}

proof fn lemma_last_with_title_count(s: Seq<TrendView>, t: Seq<char>)
    ensures
        last_with_title(s, t) >= 0 <==> title_count(s, t) > 0,
    decreases s.len(),
{
    if s.len() > 0 {
        lemma_last_with_title_count(s.drop_last(), t);
    }
}

/// Removing the first trend titled `t` while there are several leaves exactly
/// one trend titled `t` when there was any, and every other trend in order.
pub proof fn lemma_keep_last(s: Seq<TrendView>, t: Seq<char>)
    ensures
        title_count(keep_last(s, t), t) == (if title_count(s, t) > 0 { 1nat } else { 0nat }),
        without_title(keep_last(s, t), t) == without_title(s, t),
{
    lemma_last_with_title(s, t);
    lemma_last_with_title_count(s, t);
    lemma_keep_at(s, t, last_with_title(s, t));
}

proof fn lemma_title_count_contains(s: Seq<TrendView>, t: Seq<char>)
    requires
        titles_of(s).contains(t),
    ensures
        title_count(s, t) > 0,
    decreases s.len(),
{
    let k = choose|k: int| 0 <= k < titles_of(s).len() && titles_of(s)[k] == t;
    if k < s.len() - 1 {
        assert(titles_of(s.drop_last())[k] == t);
        lemma_title_count_contains(s.drop_last(), t);
    }
}

proof fn lemma_trend_table_titles(keywords: Seq<Seq<char>>, points: Seq<TimelinePointView>, timing: Seq<(u32, Seq<char>)>, m: nat)
    requires
        m <= keywords.len(),
        crate::request::trend_table(keywords, points, timing, m) is Ok,
    ensures
        titles_of(crate::request::trend_table(keywords, points, timing, m)->Ok_0) == keywords.take(m as int),
    decreases m,
{
    if m > 0 {
        lemma_trend_table_titles(keywords, points, timing, (m - 1) as nat);
        let ts = crate::request::trend_table(keywords, points, timing, m)->Ok_0;
        let prev = crate::request::trend_table(keywords, points, timing, (m - 1) as nat)->Ok_0;
        let row = crate::request::trend_row(points, timing, m - 1, points.len())->Ok_0;
        assert(ts == prev.push(TrendView { title: keywords[m - 1], data: row }));
        assert(titles_of(ts) =~= titles_of(prev).push(keywords[m - 1]));
        assert(keywords.take(m as int) =~= keywords.take(m - 1).push(keywords[m - 1]));
    }
}

/// A data reply that is read in full gives one trend per keyword of the group,
/// in the group's order, and leaves the timing table sorted.
pub proof fn lemma_timeline_outcome(keywords: Seq<Seq<char>>, points: Seq<TimelinePointView>, timing: Seq<(u32, Seq<char>)>, set: bool)
    requires
        timeline_outcome(keywords, points, timing, set) is Ok,
    ensures
        titles_of(timeline_outcome(keywords, points, timing, set)->Ok_0.0) == keywords,
        crate::timing::timing_sorted(timeline_outcome(keywords, points, timing, set)->Ok_0.1),
{
    let collected = if set {
        Ok(timing)
    } else {
        crate::request::collect_timing(points, timing)
    };
    let t = collected->Ok_0;
    crate::timing::lemma_sort_timing(t);
    lemma_trend_table_titles(keywords, points, crate::timing::sort_timing(t), keywords.len());
    assert(keywords.take(keywords.len() as int) =~= keywords);
}

/// Every final group holds the overall strongest keyword.
pub proof fn lemma_final_group_has_strongest(s: QueryView, i: int)
    requires
        0 <= i < s.lists_main.len(),
    ensures
        final_group(s, i).contains(s.max_title),
{
    if !s.lists_main[i].contains(s.max_title) {
        assert(final_group(s, i)[s.lists_main[i].len() as int] == s.max_title);
    }
}

/// After the data of a final group is read, the collected trends hold the
/// overall strongest keyword exactly once, and every other trend collected.
pub proof fn lemma_final_step_keeps_one(s: QueryView, text: Seq<char>)
    requires
        s.stage == Stage::Data,
        s.purpose == Purpose::Final,
        s.current.contains(s.max_title),
        !(query_step(s, EventView::Reply(text)).1 is Fail),
    ensures
        title_count(query_step(s, EventView::Reply(text)).0.full, s.max_title) == 1,
        ({
            let body = reply_body(text)->Some_0;
            let points = timeline_json(body)->Some_0->Some_0;
            let ts = timeline_outcome(s.current, points, s.timing, s.timing_set)->Ok_0.0;
            without_title(query_step(s, EventView::Reply(text)).0.full, s.max_title)
                == without_title(s.full + ts, s.max_title)
        }),
{
    let body = reply_body(text)->Some_0;
    let points = timeline_json(body)->Some_0->Some_0;
    let r = timeline_outcome(s.current, points, s.timing, s.timing_set)->Ok_0;
    lemma_timeline_outcome(s.current, points, s.timing, s.timing_set);
    let all = s.full + r.0;
    let k = choose|k: int| 0 <= k < s.current.len() && s.current[k] == s.max_title;
    assert(titles_of(all)[s.full.len() + k] == s.max_title);
    lemma_title_count_contains(all, s.max_title);
    lemma_keep_last(all, s.max_title);
}

/// The stage and the action agree: the query asks for an HTTP request exactly
/// while it waits for a reply, and stops (answer or failure) exactly when it
/// is finished.
pub open spec fn consistent(r: (QueryView, ActionView)) -> bool {
    &&& (r.1 is Fetch) <==> (r.0.stage == Stage::Explore || r.0.stage == Stage::Data)
    &&& (r.1 is Respond || r.1 is Fail) <==> r.0.stage == Stage::Finished
    &&& !(r.1 is OpenSession)
}

proof fn lemma_begin_final_consistent(s: QueryView, i: int)
    ensures
        consistent(begin_final(s, i)),
{
}

proof fn lemma_start_round_consistent(s: QueryView)
    ensures
        consistent(start_round(s)),
{
    lemma_begin_final_consistent(QueryView { max_title: s.max_trends[0].title, ..s }, 0);
}

proof fn lemma_begin_main_consistent(s: QueryView, i: int)
    ensures
        consistent(begin_main(s, i)),
{
    lemma_start_round_consistent(s);
}

/// Every step leaves the stage and the action in agreement.
pub proof fn lemma_step_consistent(s: QueryView, e: EventView)
    ensures
        consistent(query_step(s, e)),
{
    match (s.stage, e) {
        (Stage::Session, EventView::Session(Some(c))) => {
            lemma_begin_main_consistent(QueryView { cookie: c, ..s }, 0);
        },
        (Stage::Data, EventView::Reply(text)) => {
            if let Some(body) = reply_body(text) {
                if let Some(Some(points)) = timeline_json(body) {
                    if let Ok(r) = timeline_outcome(s.current, points, s.timing, s.timing_set) {
                        let s1 = QueryView { timing: r.1, timing_set: true, ..s };
                        let s2 = QueryView { max_trends: s1.max_trends.push(strongest(r.0)), ..s1 };
                        lemma_begin_main_consistent(s2, s.index + 1);
                        lemma_start_round_consistent(s2);
                        lemma_begin_final_consistent(QueryView { full: keep_last(s1.full + r.0, s.max_title), ..s1 }, s.index + 1);
                    }
                }
            }
        },
        _ => {},
    }
}

/// A well-formed answer: each keyword listed once, and every row holding one
/// value per trend.
pub open spec fn response_well_formed(r: TrendResponseView) -> bool {
    &&& r.titles.no_duplicates()
    &&& forall|i: int, j: int| 0 <= i < r.data.len() && 0 <= j < r.data.len() ==> #[trigger] r.data[i].value.len() == #[trigger] r.data[j].value.len()
}

/// Whatever a step answers with is well formed.
pub open spec fn answers_well_formed(r: (QueryView, ActionView)) -> bool {
    r.1 matches ActionView::Respond(resp) ==> response_well_formed(resp)
}

proof fn lemma_answer_well_formed(s: QueryView, ts: Seq<TrendView>)
    ensures
        answers_well_formed(answer(s, ts)),
{
    if zip_fits(ts, s.timing) {
        crate::trend::lemma_first_occurrences(titles_of(ts));
        let z = zipped(ts, s.timing);
        assert forall|i: int, j: int| 0 <= i < z.data.len() && 0 <= j < z.data.len() implies #[trigger] z.data[i].value.len() == #[trigger] z.data[j].value.len() by {}
    }
}

proof fn lemma_begin_final_well_formed(s: QueryView, i: int)
    ensures
        answers_well_formed(begin_final(s, i)),
{
    lemma_answer_well_formed(s, s.full);
}

proof fn lemma_start_round_well_formed(s: QueryView)
    ensures
        answers_well_formed(start_round(s)),
{
    lemma_begin_final_well_formed(QueryView { max_title: s.max_trends[0].title, ..s }, 0);
}

/// Every answer that the query gives lists each keyword once and has rows of
/// equal width.
pub proof fn lemma_step_answers_well_formed(s: QueryView, e: EventView)
    ensures
        answers_well_formed(query_step(s, e)),
{
    match (s.stage, e) {
        (Stage::Session, EventView::Session(None)) => {
            lemma_answer_well_formed(s, s.full);
        },
        (Stage::Session, EventView::Session(Some(c))) => {
            lemma_start_round_well_formed(QueryView { cookie: c, ..s });
        },
        (Stage::Data, EventView::Reply(text)) => {
            if let Some(body) = reply_body(text) {
                if let Some(Some(points)) = timeline_json(body) {
                    if let Ok(r) = timeline_outcome(s.current, points, s.timing, s.timing_set) {
                        let s1 = QueryView { timing: r.1, timing_set: true, ..s };
                        let s2 = QueryView { max_trends: s1.max_trends.push(strongest(r.0)), ..s1 };
                        lemma_answer_well_formed(s1, r.0);
                        lemma_start_round_well_formed(s2);
                        lemma_begin_final_well_formed(QueryView { full: keep_last(s1.full + r.0, s.max_title), ..s1 }, s.index + 1);
                    }
                }
            }
        },
        _ => {},
    }
}

/// The timing table stays sorted: every step keeps a sorted table sorted.
pub proof fn lemma_step_keeps_timing_sorted(s: QueryView, e: EventView)
    requires
        crate::timing::timing_sorted(s.timing),
    ensures
        crate::timing::timing_sorted(query_step(s, e).0.timing),
{
    if let (Stage::Data, EventView::Reply(text)) = (s.stage, e) {
        if let Some(body) = reply_body(text) {
            if let Some(Some(points)) = timeline_json(body) {
                if timeline_outcome(s.current, points, s.timing, s.timing_set) is Ok {
                    lemma_timeline_outcome(s.current, points, s.timing, s.timing_set);
                }
            }
        }
    }
}

/// The main groups cover the requested keywords in order, each group holding
/// 1 to 5 keywords (1 to 4 when there are more than five keywords).
pub proof fn lemma_query_start_groups(params: ReqParams, req_list: Seq<Seq<char>>)
    ensures
        query_start(params, req_list).0.lists_main.flatten() == req_list,
        forall|i: int| 0 <= i < query_start(params, req_list).0.lists_main.len()
            ==> 0 < #[trigger] query_start(params, req_list).0.lists_main[i].len() <= group_size(req_list.len()),
{
    crate::chunks::lemma_chunks_of(req_list, group_size(req_list.len()));
}

/// A tournament round starts with fewer groups than there are strongest
/// keywords, so the rounds come down to a single keyword.
pub proof fn lemma_round_has_fewer_groups(s: QueryView)
    requires
        s.max_trends.len() > 1,
    ensures
        start_round(s).0.round_lists.len() < s.max_trends.len(),
        start_round(s).0.round_lists.len() >= 1,
{
    crate::chunks::lemma_round_shrinks(titles_of(s.max_trends));
}

} // verus!

verus! {

// ---- The answer covers every requested keyword -----------------------------

proof fn lemma_titles_push(s: Seq<TrendView>, x: TrendView)
    ensures
        titles_of(s.push(x)) == titles_of(s).push(x.title),
{
    assert(titles_of(s.push(x)) =~= titles_of(s).push(x.title));
}

proof fn lemma_contains_push(s: Seq<Seq<char>>, x: Seq<char>, y: Seq<char>)
    ensures
        s.push(x).contains(y) <==> (s.contains(y) || x == y),
{
    if s.push(x).contains(y) && x != y {
        let k = choose|k: int| 0 <= k < s.push(x).len() && s.push(x)[k] == y;
        assert(s[k] == y);
    }
    if s.contains(y) {
        let k = choose|k: int| 0 <= k < s.len() && s[k] == y;
        assert(s.push(x)[k] == y);
    }
    if x == y {
        assert(s.push(x)[s.len() as int] == y);
    }
}

proof fn lemma_count_iff_contains(s: Seq<TrendView>, t: Seq<char>)
    ensures
        title_count(s, t) > 0 <==> titles_of(s).contains(t),
    decreases s.len(),
{
    if s.len() > 0 {
        lemma_count_iff_contains(s.drop_last(), t);
        assert(s =~= s.drop_last().push(s.last()));
        lemma_titles_push(s.drop_last(), s.last());
        lemma_contains_push(titles_of(s.drop_last()), s.last().title, t);
    } else {
        assert(titles_of(s).len() == 0);
    }
}

proof fn lemma_without_title_contains(s: Seq<TrendView>, t: Seq<char>, x: Seq<char>)
    requires
        x != t,
    ensures
        titles_of(without_title(s, t)).contains(x) <==> titles_of(s).contains(x),
    decreases s.len(),
{
    if s.len() > 0 {
        let pre = s.drop_last();
        lemma_without_title_contains(pre, t, x);
        assert(s =~= pre.push(s.last()));
        lemma_titles_push(pre, s.last());
        lemma_contains_push(titles_of(pre), s.last().title, x);
        if s.last().title != t {
            lemma_titles_push(without_title(pre, t), s.last());
            lemma_contains_push(titles_of(without_title(pre, t)), s.last().title, x);
        }
    } else {
        assert(titles_of(s).len() == 0);
    }
}

/// Keeping only the last trend titled `t` loses no title.
pub proof fn lemma_keep_last_titles(s: Seq<TrendView>, t: Seq<char>, x: Seq<char>)
    ensures
        titles_of(keep_last(s, t)).contains(x) <==> titles_of(s).contains(x),
{
    lemma_keep_last(s, t);
    if x == t {
        lemma_count_iff_contains(s, t);
        lemma_count_iff_contains(keep_last(s, t), t);
    } else {
        lemma_without_title_contains(s, t, x);
        lemma_without_title_contains(keep_last(s, t), t, x);
    }
}

proof fn lemma_titles_concat(a: Seq<TrendView>, b: Seq<TrendView>, x: Seq<char>)
    ensures
        titles_of(a + b).contains(x) <==> (titles_of(a).contains(x) || titles_of(b).contains(x)),
{
    let c = a + b;
    if titles_of(c).contains(x) {
        let k = choose|k: int| 0 <= k < titles_of(c).len() && titles_of(c)[k] == x;
        if k < a.len() {
            assert(titles_of(a)[k] == x);
        } else {
            assert(titles_of(b)[k - a.len()] == x);
        }
    }
    if titles_of(a).contains(x) {
        let k = choose|k: int| 0 <= k < titles_of(a).len() && titles_of(a)[k] == x;
        assert(titles_of(c)[k] == x);
    }
    if titles_of(b).contains(x) {
        let k = choose|k: int| 0 <= k < titles_of(b).len() && titles_of(b)[k] == x;
        assert(titles_of(c)[a.len() + k] == x);
    }
}

/// The trends hold a trend titled with each keyword of the groups.
pub open spec fn covers(ts: Seq<TrendView>, groups: Seq<Seq<Seq<char>>>) -> bool {
    forall|j: int, k: int| 0 <= j < groups.len() && 0 <= k < groups[j].len() ==> titles_of(ts).contains(#[trigger] groups[j][k])
}

/// What holds of every state of a query: the main groups are the requested
/// keywords cut into groups; before the session nothing is collected; and a
/// group in flight is the group its purpose and index name, after one
/// strongest trend for each earlier group of its phase (main or round), or,
/// for a final group, after the earlier final groups' keywords were all
/// collected.
pub open spec fn query_inv(s: QueryView) -> bool {
    &&& s.lists_main == chunks_of(s.req_list, group_size(s.req_list.len()))
    &&& s.stage == Stage::Session ==> s.full.len() == 0 && s.max_trends.len() == 0
    &&& (s.stage == Stage::Explore || s.stage == Stage::Data) ==> match s.purpose {
        Purpose::Main => 0 <= s.index < s.lists_main.len() && s.current == s.lists_main[s.index]
            && s.max_trends.len() == s.index,
        Purpose::Round => 0 <= s.index < s.round_lists.len() && s.current == s.round_lists[s.index]
            && s.max_trends.len() == s.index,
        Purpose::Final => 0 <= s.index < s.lists_main.len() && s.current == final_group(s, s.index)
            && covers(s.full, s.lists_main.take(s.index)),
    }
}

/// A query starts in a state that meets the invariant.
pub proof fn lemma_start_inv(params: ReqParams, req_list: Seq<Seq<char>>)
    ensures
        query_inv(query_start(params, req_list).0),
{
}

proof fn lemma_begin_final_inv(s: QueryView, i: int)
    requires
        s.lists_main == chunks_of(s.req_list, group_size(s.req_list.len())),
        0 <= i,
        covers(s.full, s.lists_main.take(i)),
    ensures
        query_inv(begin_final(s, i).0),
{
}

proof fn lemma_start_round_inv(s: QueryView)
    requires
        s.lists_main == chunks_of(s.req_list, group_size(s.req_list.len())),
    ensures
        query_inv(start_round(s).0),
{
    if s.max_trends.len() == 1 {
        let s1 = QueryView { max_title: s.max_trends[0].title, ..s };
        assert(s1.lists_main.take(0).len() == 0);
        lemma_begin_final_inv(s1, 0);
    }
}

proof fn lemma_begin_main_inv(s: QueryView, i: int)
    requires
        s.lists_main == chunks_of(s.req_list, group_size(s.req_list.len())),
        0 <= i,
        s.max_trends.len() == i,
    ensures
        query_inv(begin_main(s, i).0),
{
    lemma_start_round_inv(s);
}

proof fn lemma_final_covers(s: QueryView, ts: Seq<TrendView>)
    requires
        0 <= s.index < s.lists_main.len(),
        covers(s.full, s.lists_main.take(s.index)),
        titles_of(ts) == final_group(s, s.index),
    ensures
        covers(keep_last(s.full + ts, s.max_title), s.lists_main.take(s.index + 1)),
{
    let groups = s.lists_main.take(s.index + 1);
    let all = s.full + ts;
    assert forall|j: int, k: int| 0 <= j < groups.len() && 0 <= k < groups[j].len()
        implies titles_of(keep_last(all, s.max_title)).contains(#[trigger] groups[j][k]) by {
        let x = groups[j][k];
        lemma_titles_concat(s.full, ts, x);
        lemma_keep_last_titles(all, s.max_title, x);
        if j < s.index {
            assert(s.lists_main.take(s.index)[j] == groups[j]);
        } else {
            assert(groups[j] == s.lists_main[s.index]);
            if s.lists_main[s.index].contains(s.max_title) {
                assert(titles_of(ts)[k] == x);
            } else {
                assert(titles_of(ts)[k] == x);
            }
        }
    }
}

/// Every step keeps the invariant.
pub proof fn lemma_step_inv(s: QueryView, e: EventView)
    requires
        query_inv(s),
    ensures
        query_inv(query_step(s, e).0),
{
    match (s.stage, e) {
        (Stage::Session, EventView::Session(Some(c))) => {
            lemma_begin_main_inv(QueryView { cookie: c, ..s }, 0);
        },
        (Stage::Data, EventView::Reply(text)) => {
            if let Some(body) = reply_body(text) {
                if let Some(Some(points)) = timeline_json(body) {
                    if timeline_outcome(s.current, points, s.timing, s.timing_set) is Ok {
                        let r = timeline_outcome(s.current, points, s.timing, s.timing_set)->Ok_0;
                        lemma_timeline_outcome(s.current, points, s.timing, s.timing_set);
                        let s1 = QueryView { timing: r.1, timing_set: true, ..s };
                        let s2 = QueryView { max_trends: s1.max_trends.push(strongest(r.0)), ..s1 };
                        match s.purpose {
                            Purpose::Main => {
                                lemma_begin_main_inv(s2, s.index + 1);
                            },
                            Purpose::Round => {
                                lemma_start_round_inv(s2);
                            },
                            Purpose::Final => {
                                lemma_final_covers(s1, r.0);
                                let s3 = QueryView { full: keep_last(s1.full + r.0, s.max_title), ..s1 };
                                lemma_begin_final_inv(s3, s.index + 1);
                            },
                        }
                    }
                }
            }
        },
        _ => {},
    }
}

proof fn lemma_flatten_member(groups: Seq<Seq<Seq<char>>>, x: Seq<char>)
    requires
        groups.flatten().contains(x),
    ensures
        exists|j: int, k: int| 0 <= j < groups.len() && 0 <= k < groups[j].len() && groups[j][k] == x,
    decreases groups.len(),
{
    if groups.len() > 0 {
        let f = groups.flatten();
        assert(f == groups.first() + groups.drop_first().flatten());
        let i = choose|i: int| 0 <= i < f.len() && f[i] == x;
        if i < groups.first().len() {
            assert(groups[0][i] == x);
        } else {
            assert(groups.drop_first().flatten()[i - groups.first().len()] == x);
            lemma_flatten_member(groups.drop_first(), x);
            let (j, k) = choose|j: int, k: int| 0 <= j < groups.drop_first().len() && 0 <= k < groups.drop_first()[j].len()
                && groups.drop_first()[j][k] == x;
            assert(groups[j + 1][k] == x);
        }
    }
}

proof fn lemma_answer_covers(s: QueryView, ts: Seq<TrendView>, groups: Seq<Seq<Seq<char>>>, x: Seq<char>)
    requires
        covers(ts, groups),
        groups.flatten().contains(x),
        answer(s, ts).1 matches ActionView::Respond(r) && r.data.len() > 0,
    ensures
        answer(s, ts).1 matches ActionView::Respond(r) && r.titles.contains(x),
{
    lemma_flatten_member(groups, x);
    crate::trend::lemma_first_occurrences(titles_of(ts));
}

/// The central promise: an answer with at least one row lists every requested
/// keyword, however many keywords were asked for.
pub proof fn lemma_answer_lists_every_keyword(s: QueryView, e: EventView, x: Seq<char>)
    requires
        query_inv(s),
        s.req_list.contains(x),
        query_step(s, e).1 matches ActionView::Respond(r) && r.data.len() > 0,
    ensures
        query_step(s, e).1 matches ActionView::Respond(r) && r.titles.contains(x),
{
    crate::chunks::lemma_chunks_of(s.req_list, group_size(s.req_list.len()));
    let lists = s.lists_main;
    // A listed keyword means at least one main group, so no final phase is empty.
    assert(lists.len() > 0) by {
        if lists.len() == 0 {
            assert(lists.flatten().len() == 0);
        }
    }
    if let (Stage::Data, EventView::Reply(text)) = (s.stage, e) {
        let body = reply_body(text)->Some_0;
        let points = timeline_json(body)->Some_0->Some_0;
        let r = timeline_outcome(s.current, points, s.timing, s.timing_set)->Ok_0;
        lemma_timeline_outcome(s.current, points, s.timing, s.timing_set);
        let s1 = QueryView { timing: r.1, timing_set: true, ..s };
        match s.purpose {
            Purpose::Main => {
                if s.req_list.len() <= 5 {
                    // Up to five keywords form the only group.
                    assert(lists =~= seq![s.req_list]);
                    lemma_answer_covers(s1, r.0, lists, x);
                }
            },
            Purpose::Round => {},
            Purpose::Final => {
                lemma_final_covers(s1, r.0);
                let s3 = QueryView { full: keep_last(s1.full + r.0, s.max_title), ..s1 };
                assert(lists.take(s.index + 1) =~= lists);
                lemma_answer_covers(s3, s3.full, lists, x);
            },
        }
    }
}

} // verus!

verus! {

// ---- `keep_last` is the removal loop ----------------------------------------

/// The position of the first trend titled `t` (the length when there is none).
pub open spec fn first_with_title(s: Seq<TrendView>, t: Seq<char>) -> int
    decreases s.len(),
{
    if s.len() == 0 {
        0
    } else if s[0].title == t {
        0
    } else {
        1 + first_with_title(s.drop_first(), t)
    }
}

/// The removal loop: while several trends are titled `t`, remove the first.
pub open spec fn remove_while_several(s: Seq<TrendView>, t: Seq<char>) -> Seq<TrendView>
    decreases s.len(),
{
    let f = first_with_title(s, t);
    if title_count(s, t) > 1 && 0 <= f < s.len() {
        remove_while_several(s.remove(f), t)
    } else {
        s
    }
}

proof fn lemma_keep_at_all(s: Seq<TrendView>, t: Seq<char>, keep: int)
    requires
        forall|i: int| 0 <= i < s.len() && s[i].title == t ==> i == keep,
    ensures
        keep_at(s, t, keep) == s,
    decreases s.len(),
{
    if s.len() > 0 {
        let pre = s.drop_last();
        assert forall|i: int| 0 <= i < pre.len() && pre[i].title == t implies i == keep by {
            assert(s[i] == pre[i]);
        }
        lemma_keep_at_all(pre, t, keep);
        assert(s.last() == s[s.len() - 1]);
        assert(pre.push(s.last()) =~= s);
    }
}

proof fn lemma_keep_at_outside(s: Seq<TrendView>, t: Seq<char>, k1: int, k2: int)
    requires
        k1 < 0 || k1 >= s.len(),
        k2 < 0 || k2 >= s.len(),
    ensures
        keep_at(s, t, k1) == keep_at(s, t, k2),
    decreases s.len(),
{
    if s.len() > 0 {
        lemma_keep_at_outside(s.drop_last(), t, k1, k2);
    }
}

proof fn lemma_keep_at_remove(s: Seq<TrendView>, t: Seq<char>, keep: int, f: int)
    requires
        0 <= f < s.len(),
        s[f].title == t,
        f != keep,
    ensures
        keep_at(s.remove(f), t, if keep > f { keep - 1 } else { keep }) == keep_at(s, t, keep),
    decreases s.len(),
{
    let pre = s.drop_last();
    let keep2 = if keep > f { keep - 1 } else { keep };
    if f == s.len() - 1 {
        assert(s.remove(f) =~= pre);
        if keep > f {
            lemma_keep_at_outside(pre, t, keep2, keep);
        }
    } else {
        assert(s.remove(f) =~= pre.remove(f).push(s.last()));
        assert(pre[f] == s[f]);
        lemma_keep_at_remove(pre, t, keep, f);
        assert(s.remove(f).drop_last() =~= pre.remove(f));
        assert(s.remove(f).last() == s.last());
    }
}

proof fn lemma_last_after_remove(s: Seq<TrendView>, t: Seq<char>, f: int)
    requires
        0 <= f < last_with_title(s, t),
    ensures
        last_with_title(s.remove(f), t) == last_with_title(s, t) - 1,
    decreases s.len(),
{
    lemma_last_with_title(s, t);
    let pre = s.drop_last();
    if s.last().title == t {
        assert(s.remove(f).last() == s.last());
    } else {
        assert(s.remove(f) =~= pre.remove(f).push(s.last()));
        lemma_last_after_remove(pre, t, f);
        assert(s.remove(f).drop_last() =~= pre.remove(f));
    }
}

proof fn lemma_first_with_title(s: Seq<TrendView>, t: Seq<char>)
    ensures
        0 <= first_with_title(s, t) <= s.len(),
        first_with_title(s, t) < s.len() ==> s[first_with_title(s, t)].title == t,
        forall|i: int| 0 <= i < first_with_title(s, t) ==> #[trigger] s[i].title != t,
    decreases s.len(),
{
    if s.len() > 0 && s[0].title != t {
        lemma_first_with_title(s.drop_first(), t);
        assert forall|i: int| 0 <= i < first_with_title(s, t) implies #[trigger] s[i].title != t by {
            if i > 0 {
                assert(s[i] == s.drop_first()[i - 1]);
            }
        }
    }
}

proof fn lemma_count_two(s: Seq<TrendView>, t: Seq<char>, i: int, j: int)
    requires
        0 <= i < j < s.len(),
        s[i].title == t,
        s[j].title == t,
    ensures
        title_count(s, t) >= 2,
    decreases s.len(),
{
    let pre = s.drop_last();
    if j < s.len() - 1 {
        assert(pre[i] == s[i] && pre[j] == s[j]);
        lemma_count_two(pre, t, i, j);
    } else {
        assert(pre[i] == s[i]);
        assert(titles_of(pre)[i] == t);
        lemma_count_iff_contains(pre, t);
    }
}

/// `keep_last` gives what the removal loop gives: removing the first trend
/// titled `t` as long as several are.
pub proof fn lemma_keep_last_is_removal_loop(s: Seq<TrendView>, t: Seq<char>)
    ensures
        remove_while_several(s, t) == keep_last(s, t),
    decreases s.len(),
{
    lemma_first_with_title(s, t);
    lemma_last_with_title(s, t);
    let f = first_with_title(s, t);
    let l = last_with_title(s, t);
    if title_count(s, t) > 1 && 0 <= f < s.len() {
        // There is a second trend titled `t` after the first.
        assert(f < l) by {
            if f >= l {
                assert forall|i: int| 0 <= i < s.len() && s[i].title == t implies i == f by {
                    if i != f {
                        assert(i > l || i < f);
                    }
                }
                lemma_count_one(s, t, f);
            }
        }
        lemma_keep_last_is_removal_loop(s.remove(f), t);
        lemma_last_after_remove(s, t, f);
        lemma_keep_at_remove(s, t, l, f);
    } else if title_count(s, t) > 1 {
        lemma_count_iff_contains(s, t);
        let k = choose|k: int| 0 <= k < titles_of(s).len() && titles_of(s)[k] == t;
        assert(s[k].title == t);
    } else {
        assert forall|i: int| 0 <= i < s.len() && s[i].title == t implies i == l by {
            if i != l {
                if i < l {
                    lemma_count_two(s, t, i, l);
                } else {
                    assert(false);
                }
            }
        }
        lemma_keep_at_all(s, t, l);
    }
}

proof fn lemma_count_one(s: Seq<TrendView>, t: Seq<char>, k: int)
    requires
        0 <= k < s.len(),
        s[k].title == t,
        forall|i: int| 0 <= i < s.len() && s[i].title == t ==> i == k,
    ensures
        title_count(s, t) == 1,
    decreases s.len(),
{
    let pre = s.drop_last();
    if k == s.len() - 1 {
        assert forall|i: int| 0 <= i < pre.len() implies pre[i].title != t by {
            assert(s[i] == pre[i]);
        }
        lemma_count_zero(pre, t);
    } else {
        assert(pre[k] == s[k]);
        assert forall|i: int| 0 <= i < pre.len() && pre[i].title == t implies i == k by {
            assert(s[i] == pre[i]);
        }
        lemma_count_one(pre, t, k);
    }
}

proof fn lemma_count_zero(s: Seq<TrendView>, t: Seq<char>)
    requires
        forall|i: int| 0 <= i < s.len() ==> s[i].title != t,
    ensures
        title_count(s, t) == 0,
    decreases s.len(),
{
    if s.len() > 0 {
        let pre = s.drop_last();
        assert forall|i: int| 0 <= i < pre.len() implies pre[i].title != t by {
            assert(s[i] == pre[i]);
        }
        lemma_count_zero(pre, t);
    }
}

} // verus!

verus! {

// ---- The query ends --------------------------------------------------------

/// A bound on the steps a query has left: two per group still to request,
/// with every future tournament round counted generously, and none once it
/// has finished.
pub open spec fn rank(s: QueryView) -> nat {
    let l = s.lists_main.len() as int;
    let r = s.round_lists.len() as int;
    let pending = match s.purpose {
        Purpose::Main => 2 * (l - 1 - s.index) + 2 * (l * l) + 2 * l,
        Purpose::Round => 2 * (r - 1 - s.index) + 2 * (r * r) + 2 * l,
        Purpose::Final => 2 * (l - 1 - s.index),
    };
    match s.stage {
        Stage::Finished => 0,
        Stage::Session => (4 * l + 2 * (l * l) + 2) as nat,
        Stage::Explore => (pending + 2) as nat,
        Stage::Data => (pending + 1) as nat,
    }
}

proof fn lemma_round_cost(r: int, c: int)
    requires
        1 <= r < c,
    ensures
        2 * (r * r) + 2 * r < 2 * (c * c) + 1,
{
    assert(2 * (r * r) + 2 * r < 2 * (c * c) + 1) by (nonlinear_arith)
        requires 1 <= r < c;
}

proof fn lemma_start_round_rank(s: QueryView, bound: int)
    requires
        s.lists_main == chunks_of(s.req_list, group_size(s.req_list.len())),
        bound == 2 * (s.max_trends.len() * s.max_trends.len()) + 2 * s.lists_main.len() + 1,
    ensures
        rank(start_round(s).0) < bound,
{
    let c = s.max_trends.len() as int;
    if c > 1 {
        let list = titles_of(s.max_trends);
        crate::chunks::lemma_round_shrinks(list);
        let r = chunks_of(list, group_size(list.len())).len() as int;
        lemma_round_cost(r, c);
    }
}

/// Every step of a running query brings its rank down, so a query finishes
/// after at most `rank` of its first state steps, whatever the replies.
pub proof fn lemma_step_decreases_rank(s: QueryView, e: EventView)
    requires
        query_inv(s),
        s.stage != Stage::Finished,
    ensures
        rank(query_step(s, e).0) < rank(s),
{
    let l = s.lists_main.len() as int;
    match (s.stage, e) {
        (Stage::Session, EventView::Session(Some(c))) => {
            let s1 = QueryView { cookie: c, ..s };
            if l == 0 {
                lemma_start_round_rank(s1, 2 * l + 1);
            }
        },
        (Stage::Data, EventView::Reply(text)) => {
            if let Some(body) = reply_body(text) {
                if let Some(Some(points)) = timeline_json(body) {
                    if timeline_outcome(s.current, points, s.timing, s.timing_set) is Ok {
                        let r = timeline_outcome(s.current, points, s.timing, s.timing_set)->Ok_0;
                        let s1 = QueryView { timing: r.1, timing_set: true, ..s };
                        let s2 = QueryView { max_trends: s1.max_trends.push(strongest(r.0)), ..s1 };
                        match s.purpose {
                            Purpose::Main => {
                                if s.index + 1 >= l {
                                    lemma_start_round_rank(s2, 2 * (l * l) + 2 * l + 1);
                                }
                            },
                            Purpose::Round => {
                                let rl = s.round_lists.len() as int;
                                if s.index + 1 >= rl {
                                    lemma_start_round_rank(s2, 2 * (rl * rl) + 2 * l + 1);
                                }
                            },
                            Purpose::Final => {},
                        }
                    }
                }
            }
        },
        _ => {},
    }
}


// ---- What a group keeps ----------------------------------------------------

/// `b` is the strongest trend of a group's trends `ts`: no trend of the group
/// peaks higher than `b`, and `b` is the first trend of the group with the
/// highest peak; when every trend stays at 0, `b` is the empty trend.
pub open spec fn is_group_strongest(b: TrendView, ts: Seq<TrendView>) -> bool {
    &&& forall|i: int| 0 <= i < ts.len() ==> crate::trend::max_value(#[trigger] ts[i].data) <= crate::trend::max_value(b.data)
    &&& ((b == crate::trend::empty_trend()
            && forall|i: int| 0 <= i < ts.len() ==> crate::trend::max_value(#[trigger] ts[i].data) == 0)
        || exists|m: int| 0 <= m < ts.len() && #[trigger] ts[m] == b && crate::trend::max_value(b.data) > 0
            && forall|j: int| 0 <= j < m ==> crate::trend::max_value(#[trigger] ts[j].data) < crate::trend::max_value(b.data))
}

/// Whether another group of the same part (main groups or the current round)
/// follows the current one.
pub open spec fn more_groups(s: QueryView) -> bool {
    match s.purpose {
        Purpose::Round => 0 <= s.index + 1 < s.round_lists.len(),
        _ => 0 <= s.index + 1 < s.lists_main.len(),
    }
}

/// When the data of a main group (of a query of more than five keywords) or
/// of a round group has been read, the group's strongest trend joins the
/// strongest trends found so far. While groups of the same part are left,
/// the query goes on with these; after the last one, the next round plays
/// exactly the titles of the strongest trends, or, when one is left, its title
/// becomes the keyword that every final group is scaled to.
pub proof fn lemma_group_keeps_strongest(s: QueryView, ts: Seq<TrendView>, timing: Seq<(u32, Seq<char>)>)
    requires
        s.purpose == Purpose::Round || (s.purpose == Purpose::Main && s.req_list.len() > 5),
    ensures
        exists|b: TrendView| #[trigger] is_group_strongest(b, ts) && ({
            let next = on_trends(s, ts, timing).0;
            let pool = s.max_trends.push(b);
            &&& more_groups(s) ==> next.max_trends == pool
            &&& (!more_groups(s) && pool.len() > 1) ==> next.round_lists.flatten() == titles_of(pool)
                && next.max_trends.len() == 0
            &&& (!more_groups(s) && pool.len() == 1) ==> next.max_title == b.title
        }),
{
    let b = strongest(ts);
    crate::trend::lemma_strongest(ts);
    if !(b == crate::trend::empty_trend()
        && forall|i: int| 0 <= i < ts.len() ==> crate::trend::max_value(#[trigger] ts[i].data) == 0) {
        let m = choose|m: int| 0 <= m < ts.len() && strongest(ts) == ts[m] && crate::trend::max_value(ts[m].data) > 0
            && forall|j: int| 0 <= j < m ==> crate::trend::max_value(ts[j].data) < crate::trend::max_value(ts[m].data);
        assert(ts[m] == b);
    }
    assert(is_group_strongest(b, ts));
    let s1 = QueryView { timing, timing_set: true, ..s };
    let s2 = QueryView { max_trends: s1.max_trends.push(b), ..s1 };
    let pool = s.max_trends.push(b);
    if !more_groups(s) && pool.len() > 1 {
        let list = titles_of(pool);
        crate::chunks::lemma_chunks_of(list, group_size(list.len()));
    }
}

proof fn lemma_on_trends_keeps_timing(s: QueryView, ts: Seq<TrendView>, timing: Seq<(u32, Seq<char>)>)
    ensures
        on_trends(s, ts, timing).0.timing == timing,
        on_trends(s, ts, timing).0.timing_set,
{
}

/// Once a data reply has been read, the timing table is marked filled. A
/// reply read after that adds no row to it (the table keeps the same rows,
/// sorted); the first reply read adds one row per point.
pub proof fn lemma_data_reply_fills_timing_once(s: QueryView, text: Seq<char>)
    requires
        s.stage == Stage::Data,
        reply_body(text) is Some,
        timeline_json(reply_body(text)->Some_0) matches Some(Some(_)),
        timeline_outcome(s.current, timeline_json(reply_body(text)->Some_0)->Some_0->Some_0, s.timing, s.timing_set) is Ok,
    ensures
        query_step(s, EventView::Reply(text)).0.timing_set,
        s.timing_set ==> query_step(s, EventView::Reply(text)).0.timing.to_multiset() == s.timing.to_multiset(),
        !s.timing_set ==> query_step(s, EventView::Reply(text)).0.timing.len()
            == s.timing.len() + timeline_json(reply_body(text)->Some_0)->Some_0->Some_0.len(),
{
    let points = timeline_json(reply_body(text)->Some_0)->Some_0->Some_0;
    let r = timeline_outcome(s.current, points, s.timing, s.timing_set)->Ok_0;
    lemma_on_trends_keeps_timing(s, r.0, r.1);
    let collected = if s.timing_set {
        s.timing
    } else {
        crate::request::collect_timing(points, s.timing)->Ok_0
    };
    crate::timing::lemma_sort_timing(collected);
    broadcast use vstd::seq_lib::group_to_multiset_ensures;
    assert(query_step(s, EventView::Reply(text)).0.timing == crate::timing::sort_timing(collected));
    if !s.timing_set {
        crate::request::lemma_collect_timing_len(points, s.timing);
        assert(crate::timing::sort_timing(collected).to_multiset().len() == crate::timing::sort_timing(collected).len());
        assert(collected.to_multiset().len() == collected.len());
    }
}

} // verus!
