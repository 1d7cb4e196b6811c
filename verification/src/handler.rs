//! The web server's decisions: which route a request takes, the parameters
//! of an API call, which keywords are accepted, and the pages around charts.

use vstd::prelude::*;
use crate::text::{strings_view, split_on, split_text, trim_quotes, trim_quotes_str, contains_text, contains_str, replace_all, replace_str, text_after_bytes, cut_bytes, lemma_split_on_nonempty, join_with, count_char, lemma_split_join, lemma_split_count};
use crate::request::ReqParams;
use rand::Rng;

verus! {

/// The HTTP method of a request, as far as routing tells them apart.
#[derive(PartialEq, Eq, Structural, Clone, Copy, Debug)]
pub enum Method {
    Get,
    Post,
    Other,
}

/// Where a request goes.
pub enum Route {
    /// POST `/api/` or `/`: keywords in a JSON body.
    ApiPost,
    /// GET `/api/`: keywords in the query.
    ApiGet,
    /// Serve this page file.
    Page(String),
    /// GET `/request`: draw a chart for the query, then serve the index page.
    Chart,
    /// GET `/chart.svg`: serve the example chart.
    ChartSvg,
    /// Serve this generated chart file and delete it.
    Svg(String),
    /// Answer 400 with an empty body.
    BadRequest,
}

/// The plain value of a [`Route`].
pub enum RouteView {
    ApiPost,
    ApiGet,
    Page(Seq<char>),
    Chart,
    ChartSvg,
    Svg(Seq<char>),
    BadRequest,
}

impl View for Route {
    type V = RouteView;

    open spec fn view(&self) -> RouteView {
        match self {
            Route::ApiPost => RouteView::ApiPost,
            Route::ApiGet => RouteView::ApiGet,
            Route::Page(p) => RouteView::Page(p@),
            Route::Chart => RouteView::Chart,
            Route::ChartSvg => RouteView::ChartSvg,
            Route::Svg(f) => RouteView::Svg(f@),
            Route::BadRequest => RouteView::BadRequest,
        }
    }
}

/// A GET path that names a generated chart file.
pub open spec fn is_chart_file_path(path: Seq<char>) -> bool {
    contains_text(path, ".svg"@) && path != "/chart.svg"@ && path != "chart.svg"@
}

/// The route can be taken: a chart file path loses its first byte, which
/// cannot be done where that byte does not end a character.
pub open spec fn route_defined(method: Method, path: Seq<char>) -> bool {
    !(method == Method::Get && is_chart_file_path(path) && text_after_bytes(path, 1) is None)
}

/// The route of a request.
pub open spec fn route_of(method: Method, path: Seq<char>) -> RouteView {
    if method == Method::Post && (path == "/api/"@ || path == "/"@) {
        RouteView::ApiPost
    } else if method != Method::Get {
        RouteView::BadRequest
    } else if path == "/api/"@ {
        RouteView::ApiGet
    } else if path == "/"@ {
        RouteView::Page("index.html"@)
    } else if path == "/use"@ {
        RouteView::Page("use.html"@)
    } else if path == "/about"@ {
        RouteView::Page("about.html"@)
    } else if path == "/request"@ {
        RouteView::Chart
    } else if path == "/chart.svg"@ {
        RouteView::ChartSvg
    } else if is_chart_file_path(path) {
        RouteView::Svg(text_after_bytes(path, 1)->Some_0)
    } else {
        RouteView::Page("index.html"@)
    }
}

fn text_eq(a: &str, b: &str) -> (r: bool)
    ensures
        r == (a@ == b@),
{
    String::from_str(a) == String::from_str(b)
}

/// Whether `route` accepts this method and path.
pub fn route_is_defined(method: Method, path: &str) -> (r: bool)
    ensures
        r == route_defined(method, path@),
{
    if method == Method::Get && contains_str(path, ".svg") && !text_eq(path, "/chart.svg") && !text_eq(path, "chart.svg") {
        cut_bytes(path, 1).is_some()
    } else {
        true
    }
}

/// Routes a request by method and path.
pub fn route(method: Method, path: &str) -> (r: Route)
    requires
        route_defined(method, path@),
    ensures
        r@ == route_of(method, path@),
{
    if method == Method::Post && (text_eq(path, "/api/") || text_eq(path, "/")) {
        Route::ApiPost
    } else if method != Method::Get {
        Route::BadRequest
    } else if text_eq(path, "/api/") {
        Route::ApiGet
    } else if text_eq(path, "/") {
        Route::Page(String::from_str("index.html"))
    } else if text_eq(path, "/use") {
        Route::Page(String::from_str("use.html"))
    } else if text_eq(path, "/about") {
        Route::Page(String::from_str("about.html"))
    } else if text_eq(path, "/request") {
        Route::Chart
    } else if text_eq(path, "/chart.svg") {
        Route::ChartSvg
    } else if contains_str(path, ".svg") && !text_eq(path, "chart.svg") {
        match cut_bytes(path, 1) {
            Some(file) => Route::Svg(file),
            None => Route::BadRequest,
        }
    } else {
        Route::Page(String::from_str("index.html"))
    }
}

/// The pairs of an `application/x-www-form-urlencoded` query, decoded, in order.
pub uninterp spec fn urlencoded_pairs(query: Seq<char>) -> Seq<(Seq<char>, Seq<char>)>;

/// The plain value of a list of name-value pairs.
pub open spec fn pairs_view(p: Seq<(String, String)>) -> Seq<(Seq<char>, Seq<char>)> {
    p.map_values(|x: (String, String)| (x.0@, x.1@))
}

/// Decodes a query with `url::form_urlencoded::parse` and `into_owned`,
/// collecting the pairs in order. The contract names the result.
#[verifier::external_body]
fn parse_query_pairs(query: &str) -> (r: Vec<(String, String)>)
    ensures
        pairs_view(r@) == urlencoded_pairs(query@),
{
    url::form_urlencoded::parse(query.as_bytes()).into_owned().collect()
}

/// The query's pairs; none without a query.
pub open spec fn query_pairs_of(query: Option<Seq<char>>) -> Seq<(Seq<char>, Seq<char>)> {
    match query {
        Some(q) => urlencoded_pairs(q),
        None => Seq::empty(),
    }
}

/// The name-value pairs of a request's query.
pub fn query_pairs(query: Option<&str>) -> (r: Vec<(String, String)>)
    ensures
        pairs_view(r@) == query_pairs_of(match query {
            Some(q) => Some(q@),
            None => None,
        }),
{
    match query {
        Some(q) => parse_query_pairs(q),
        None => {
            let r: Vec<(String, String)> = Vec::new();
            assert(pairs_view(r@) =~= Seq::<(Seq<char>, Seq<char>)>::empty());
            r
        },
    }
}

/// The value of the last pair with this name, as a map built from the pairs
/// in order keeps it.
pub open spec fn last_value(pairs: Seq<(Seq<char>, Seq<char>)>, name: Seq<char>) -> Option<Seq<char>>
    decreases pairs.len(),
{
    if pairs.len() == 0 {
        None
    } else if pairs.last().0 == name {
        Some(pairs.last().1)
    } else {
        last_value(pairs.drop_last(), name)
    }
}

/// The value of the named parameter: the last pair with that name wins.
pub fn param_value(pairs: &Vec<(String, String)>, name: &str) -> (r: Option<String>)
    ensures
        match r {
            Some(v) => last_value(pairs_view(pairs@), name@) == Some(v@),
            None => last_value(pairs_view(pairs@), name@) is None,
        },
{
    let ghost pv = pairs_view(pairs@);
    let mut i = pairs.len();
    assert(pv.take(i as int) =~= pv);
    while i > 0
        invariant
            i <= pairs@.len(),
            pv == pairs_view(pairs@),
            last_value(pv, name@) == last_value(pv.take(i as int), name@),
        decreases i,
    {
        assert(pv.take(i as int).drop_last() =~= pv.take(i - 1));
        assert(pv.take(i as int).last() == (pairs@[i - 1].0@, pairs@[i - 1].1@));
        if text_eq(pairs[i - 1].0.as_str(), name) {
            return Some(pairs[i - 1].1.clone());
        }
        i = i - 1;
    }
    None
}

/// A parameter's value, or the default.
pub open spec fn param_or(pairs: Seq<(Seq<char>, Seq<char>)>, name: Seq<char>, default: Seq<char>) -> Seq<char> {
    match last_value(pairs, name) {
        Some(v) => v,
        None => default,
    }
}

fn param_or_exec(pairs: &Vec<(String, String)>, name: &str, default: &str) -> (r: String)
    ensures
        r@ == param_or(pairs_view(pairs@), name@, default@),
{
    match param_value(pairs, name) {
        Some(v) => v,
        None => String::from_str(default),
    }
}

/// The upstream request parameters of an API call: time zone `tz` (default
/// `0`), language `hl` (`en`), time range `time` (`now 7-d`) and region `geo`
/// (empty), against the Google Trends API.
pub fn api_params(pairs: &Vec<(String, String)>) -> (r: ReqParams)
    ensures
        r.base_url@ == "https://trends.google.com/trends/api/"@,
        r.tz@ == param_or(pairs_view(pairs@), "tz"@, "0"@),
        r.hl@ == param_or(pairs_view(pairs@), "hl"@, "en"@),
        r.time@ == param_or(pairs_view(pairs@), "time"@, "now 7-d"@),
        r.geo@ == param_or(pairs_view(pairs@), "geo"@, ""@),
        r.keywords is None,
{
    ReqParams {
        base_url: String::from_str("https://trends.google.com/trends/api/"),
        tz: param_or_exec(pairs, "tz", "0"),
        hl: param_or_exec(pairs, "hl", "en"),
        time: param_or_exec(pairs, "time", "now 7-d"),
        geo: param_or_exec(pairs, "geo", ""),
        keywords: None,
    }
}

} // verus!

verus! {

/// What the API makes of the keywords of a request.
pub enum KeywordsDecision {
    /// Query these keywords.
    Accept(Vec<String>),
    /// Answer with this status and body, without a query.
    Reply { status: u16, body: String },
}

/// The plain value of a [`KeywordsDecision`].
pub enum DecisionView {
    Accept(Seq<Seq<char>>),
    Reply { status: u16, body: Seq<char> },
}

impl View for KeywordsDecision {
    type V = DecisionView;

    open spec fn view(&self) -> DecisionView {
        match self {
            KeywordsDecision::Accept(list) => DecisionView::Accept(strings_view(list@)),
            KeywordsDecision::Reply { status, body } => DecisionView::Reply { status: *status, body: body@ },
        }
    }
}

/// What a POST body holds under `keywords`: `None` when the body is not JSON;
/// `Some(None)` when `keywords` is missing or not an array; else each entry,
/// as a string when it is one.
pub uninterp spec fn body_keywords_json(body: Seq<u8>) -> Option<Option<Seq<Option<Seq<char>>>>>;

/// The plain value of what `read_body_keywords` returns.
pub open spec fn body_keywords_view(r: Option<Option<Vec<Option<String>>>>) -> Option<Option<Seq<Option<Seq<char>>>>> {
    match r {
        None => None,
        Some(None) => Some(None),
        Some(Some(v)) => Some(Some(entries_view(v@))),
    }
}

/// Reads the `keywords` array of a POST body with `serde_json::from_slice`
/// into a `serde_json::Value`, `get`, `as_array` and `as_str`. The contract
/// names the result.
#[verifier::external_body]
fn read_body_keywords(body: &[u8]) -> (r: Option<Option<Vec<Option<String>>>>)
    ensures
        body_keywords_view(r) == body_keywords_json(body@),
{
    match serde_json::from_slice::<serde_json::Value>(body) {
        Err(_) => None,
        Ok(v) => Some(v.get("keywords").and_then(|k| k.as_array()).map(|a| a.iter().map(|x| x.as_str().map(|s| s.to_string())).collect())),
    }
}

/// A keyword of a POST body: the entry without quotes, empty when it is not a string.
pub open spec fn post_keyword(entry: Option<Seq<char>>) -> Seq<char> {
    trim_quotes(match entry {
        Some(s) => s,
        None => Seq::empty(),
    })
}

/// The keywords of a POST body's entries.
pub open spec fn post_keywords(entries: Seq<Option<Seq<char>>>) -> Seq<Seq<char>> {
    entries.map_values(|e: Option<Seq<char>>| post_keyword(e))
}

/// What the API makes of what a POST body holds under `keywords`.
pub open spec fn keywords_field_decision(field: Option<Option<Seq<Option<Seq<char>>>>>) -> DecisionView {
    match field {
        None => DecisionView::Reply {
            status: 400,
            body: "JSON format error. Post request should contain json: {\"keywords\": [your \"quoted\" keywords comma separated]}"@,
        },
        Some(None) => DecisionView::Reply {
            status: 400,
            body: "No keywords. Post request should contain json: {\"keywords\": [your \"quoted\" keywords comma separated]}"@,
        },
        Some(Some(entries)) => if post_keywords(entries).len() == 0 || post_keywords(entries).contains(Seq::empty()) {
            DecisionView::Reply {
                status: 400,
                body: "JSON contains empty keywords. Post request should contain json: {\"keywords\": [your \"quoted\" keywords comma separated]}"@,
            }
        } else {
            DecisionView::Accept(post_keywords(entries))
        },
    }
}

/// What the API makes of a POST body.
pub open spec fn post_decision(body: Seq<u8>) -> DecisionView {
    keywords_field_decision(body_keywords_json(body))
}

/// Whether a keyword list holds an empty keyword.
fn has_empty(list: &Vec<String>) -> (r: bool)
    ensures
        r == strings_view(list@).contains(Seq::<char>::empty()),
{
    let mut i: usize = 0;
    while i < list.len()
        invariant
            i <= list@.len(),
            forall|k: int| 0 <= k < i ==> strings_view(list@)[k] != Seq::<char>::empty(),
        decreases list@.len() - i,
    {
        if list[i].as_str().unicode_len() == 0 {
            assert(strings_view(list@)[i as int] =~= Seq::<char>::empty());
            return true;
        }
        i = i + 1;
    }
    false
}

/// The plain value of the entries of a `keywords` array.
pub open spec fn entries_view(entries: Seq<Option<String>>) -> Seq<Option<Seq<char>>> {
    entries.map_values(|x: Option<String>| match x {
        Some(s) => Some(s@),
        None => None,
    })
}

/// The keywords of the entries of a `keywords` array: each string without its
/// quotes, an empty keyword for an entry that is not a string.
pub fn list_keywords(entries: &Vec<Option<String>>) -> (list: Vec<String>)
    ensures
        strings_view(list@) == post_keywords(entries_view(entries@)),
{
    let ghost ev = entries_view(entries@);
    let mut list: Vec<String> = Vec::new();
    let mut i: usize = 0;
    assert(post_keywords(ev.take(0)) =~= Seq::<Seq<char>>::empty());
    while i < entries.len()
        invariant
            i <= entries@.len(),
            ev == entries_view(entries@),
            strings_view(list@) == post_keywords(ev.take(i as int)),
        decreases entries@.len() - i,
    {
        let k = match &entries[i] {
            Some(s) => trim_quotes_str(s.as_str()),
            None => trim_quotes_str(""),
        };
        proof {
            reveal_strlit("");
        }
        assert(k@ == post_keyword(ev[i as int]));
        let ghost before = strings_view(list@);
        list.push(k);
        assert(strings_view(list@) =~= before.push(k@));
        assert(post_keywords(ev.take(i + 1)) =~= post_keywords(ev.take(i as int)).push(post_keyword(ev[i as int])));
        i = i + 1;
    }
    assert(ev.take(entries@.len() as int) =~= ev);
    list
}

/// Decides on what a POST body holds under `keywords` (`None` when the body
/// is not JSON, `Some(None)` when there is no `keywords` array): each entry a
/// keyword (quotes trimmed; an entry that is not a string counts as empty);
/// no empty list and no empty keyword.
pub fn keywords_decision(field: Option<Option<Vec<Option<String>>>>) -> (r: KeywordsDecision)
    ensures
        r@ == keywords_field_decision(body_keywords_view(field)),
{
    match field {
        None => KeywordsDecision::Reply {
            status: 400,
            body: String::from_str("JSON format error. Post request should contain json: {\"keywords\": [your \"quoted\" keywords comma separated]}"),
        },
        Some(None) => KeywordsDecision::Reply {
            status: 400,
            body: String::from_str("No keywords. Post request should contain json: {\"keywords\": [your \"quoted\" keywords comma separated]}"),
        },
        Some(Some(entries)) => {
            let list = list_keywords(&entries);
            if list.len() == 0 || has_empty(&list) {
                KeywordsDecision::Reply {
                    status: 400,
                    body: String::from_str("JSON contains empty keywords. Post request should contain json: {\"keywords\": [your \"quoted\" keywords comma separated]}"),
                }
            } else {
                KeywordsDecision::Accept(list)
            }
        },
    }
}

/// Decides on the keywords of a POST `/api/` body: a JSON object with a
/// `keywords` array of keywords.
pub fn post_keywords_decision(body: &[u8]) -> (r: KeywordsDecision)
    ensures
        r@ == post_decision(body@),
{
    keywords_decision(read_body_keywords(body))
}

/// The keywords of a GET `keywords` parameter: cut at commas, quotes trimmed.
pub open spec fn get_keywords(param: Seq<char>) -> Seq<Seq<char>> {
    split_on(param, ',').map_values(|p: Seq<char>| trim_quotes(p))
}

/// What the API makes of a GET request's `keywords` parameter.
pub open spec fn get_decision(param: Option<Seq<char>>) -> DecisionView {
    match param {
        None => DecisionView::Reply {
            status: 200,
            body: "No keywords. Get request sould contain ../api/?keywords=your keywords comma separated"@,
        },
        Some(p) => if get_keywords(p).contains(Seq::empty()) {
            DecisionView::Reply {
                status: 400,
                body: "Keyword format error. Get request sould contain ../api/?keywords=your keywords comma separated"@,
            }
        } else {
            DecisionView::Accept(get_keywords(p))
        },
    }
}

/// Decides on the `keywords` parameter of a GET `/api/` request: keywords
/// separated by commas, quotes trimmed, none of them empty.
pub fn get_keywords_decision(param: Option<String>) -> (r: KeywordsDecision)
    ensures
        r@ == get_decision(match param {
            Some(p) => Some(p@),
            None => None,
        }),
{
    match param {
        None => KeywordsDecision::Reply {
            status: 200,
            body: String::from_str("No keywords. Get request sould contain ../api/?keywords=your keywords comma separated"),
        },
        Some(p) => {
            let pieces = split_text(p.as_str(), ',');
            let ghost pv = strings_view(pieces@);
            let mut list: Vec<String> = Vec::new();
            let mut i: usize = 0;
            while i < pieces.len()
                invariant
                    i <= pieces@.len(),
                    pv == strings_view(pieces@),
                    strings_view(list@) == pv.take(i as int).map_values(|x: Seq<char>| trim_quotes(x)),
                decreases pieces@.len() - i,
            {
                let k = trim_quotes_str(pieces[i].as_str());
                let ghost before = strings_view(list@);
                list.push(k);
                assert(strings_view(list@) =~= before.push(k@));
                assert(pv.take(i + 1).map_values(|x: Seq<char>| trim_quotes(x)) =~= pv.take(i as int).map_values(|x: Seq<char>| trim_quotes(x)).push(trim_quotes(pv[i as int])));
                i = i + 1;
            }
            assert(pv.take(pieces@.len() as int) =~= pv);
            if has_empty(&list) {
                KeywordsDecision::Reply {
                    status: 400,
                    body: String::from_str("Keyword format error. Get request sould contain ../api/?keywords=your keywords comma separated"),
                }
            } else {
                KeywordsDecision::Accept(list)
            }
        },
    }
}

/// The API never queries an empty keyword, nor (for POST) an empty list; a
/// GET parameter always gives at least one keyword.
pub proof fn lemma_accepted_keywords(body: Seq<u8>, param: Option<Seq<char>>)
    ensures
        post_decision(body) matches DecisionView::Accept(list) ==> list.len() > 0 && forall|i: int| 0 <= i < list.len() ==> #[trigger] list[i].len() > 0,
        get_decision(param) matches DecisionView::Accept(list) ==> list.len() > 0 && forall|i: int| 0 <= i < list.len() ==> #[trigger] list[i].len() > 0,
{
    if let DecisionView::Accept(list) = post_decision(body) {
        assert forall|i: int| 0 <= i < list.len() implies #[trigger] list[i].len() > 0 by {
            if list[i].len() == 0 {
                assert(list[i] =~= Seq::<char>::empty());
            }
        }
    }
    if let Some(p) = param {
        lemma_split_on_nonempty(p, ',');
        if let DecisionView::Accept(list) = get_decision(param) {
            assert forall|i: int| 0 <= i < list.len() implies #[trigger] list[i].len() > 0 by {
                if list[i].len() == 0 {
                    assert(list[i] =~= Seq::<char>::empty());
                }
            }
        }
    }
}

/// A GET `keywords` parameter is cut into its comma-separated pieces: the
/// pieces, joined with commas, give the parameter back, none of them holds a
/// comma, and there is one more piece than the parameter has commas. When no
/// piece is empty once its quotes are trimmed, the API accepts exactly one
/// keyword per piece, in order, each the piece with its quotes trimmed, and
/// no limit on their number; otherwise it answers 400.
pub proof fn lemma_get_keywords_pieces(p: Seq<char>)
    ensures
        get_decision(Some(p)) matches DecisionView::Accept(list) ==> list.len() == count_char(p, ',') + 1,
        exists|pieces: Seq<Seq<char>>|
            #[trigger] join_with(pieces, ',') == p
                && pieces.len() == count_char(p, ',') + 1
                && (forall|i: int, j: int| 0 <= i < pieces.len() && 0 <= j < pieces[i].len() ==> pieces[i][j] != ',')
                && ((forall|i: int| 0 <= i < pieces.len() ==> trim_quotes(#[trigger] pieces[i]).len() > 0)
                    ==> get_decision(Some(p)) == DecisionView::Accept(pieces.map_values(|x: Seq<char>| trim_quotes(x))))
                && (!(forall|i: int| 0 <= i < pieces.len() ==> trim_quotes(#[trigger] pieces[i]).len() > 0)
                    ==> (get_decision(Some(p)) matches DecisionView::Reply { status, .. } && status == 400)),
{
    let pieces = split_on(p, ',');
    lemma_split_join(p, ',');
    lemma_split_count(p, ',');
    let all_full = forall|i: int| 0 <= i < pieces.len() ==> trim_quotes(#[trigger] pieces[i]).len() > 0;
    if all_full {
        if get_keywords(p).contains(Seq::empty()) {
            let k = choose|k: int| 0 <= k < get_keywords(p).len() && get_keywords(p)[k] == Seq::<char>::empty();
            assert(trim_quotes(pieces[k]).len() > 0);
        }
    } else {
        let k = choose|k: int| 0 <= k < pieces.len() && !(trim_quotes(#[trigger] pieces[k]).len() > 0);
        assert(get_keywords(p)[k] =~= Seq::<char>::empty());
        assert(get_keywords(p).contains(Seq::empty()));
    }
    assert(join_with(pieces, ',') == p);
}

} // verus!

verus! {

/// A character that `rand::distributions::Alphanumeric` draws: `A`-`Z`, `a`-`z`, `0`-`9`.
pub open spec fn is_alphanumeric(c: char) -> bool {
    ('A' <= c && c <= 'Z') || ('a' <= c && c <= 'z') || ('0' <= c && c <= '9')
}

/// Draws `n` characters with `rand::thread_rng` from
/// `rand::distributions::Alphanumeric`. Its source samples each byte from
/// `A`-`Z`, `a`-`z`, `0`-`9`; which ones come out is chance and not stated.
/// `thread_rng` panics when the operating system's random source cannot seed
/// it, which depends on the machine and is not stated either.
#[verifier::external_body]
fn random_alphanumeric(n: usize) -> (r: String)
    ensures
        r@.len() == n,
        forall|i: int| 0 <= i < n ==> is_alphanumeric(#[trigger] r@[i]),
{
    rand::thread_rng().sample_iter(&rand::distributions::Alphanumeric).take(n).map(char::from).collect()
}

/// A random name of 16 letters and digits for a chart file.
pub fn generate_string() -> (r: String)
    ensures
        r@.len() == 16,
        forall|i: int| 0 <= i < 16 ==> is_alphanumeric(#[trigger] r@[i]),
{
    random_alphanumeric(16)
}

/// The file name of a chart: the random name with `.svg`.
pub fn chart_file_name(name: &str) -> (r: String)
    ensures
        r@ == name@ + ".svg"@,
{
    let mut r = String::from_str(name);
    r.append(".svg");
    r
}

/// The API URL that a chart request reads its data from: the local API with
/// the request's query.
pub fn chart_data_url(query: &str) -> (r: String)
    ensures
        r@ == "http://127.0.0.1:8000/api/?"@ + query@,
{
    let mut r = String::from_str("http://127.0.0.1:8000/api/?");
    r.append(query);
    r
}

/// The index page after a chart request: with the new chart's file in place
/// of every `chart.svg` when the chart was drawn, else unchanged.
pub fn chart_page(page: &str, file: &str, drawn: bool) -> (r: String)
    ensures
        drawn ==> r@ == replace_all(page@, "chart.svg"@, file@),
        !drawn ==> r@ == page@,
{
    if drawn {
        proof {
            reveal_strlit("chart.svg");
        }
        replace_str(page, "chart.svg", file)
    } else {
        String::from_str(page)
    }
}

} // verus!
