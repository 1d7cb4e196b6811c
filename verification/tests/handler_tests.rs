use gtrends::handler::{
    api_params, chart_data_url, keywords_decision, chart_file_name, chart_page, generate_string, get_keywords_decision, list_keywords,
    param_value, post_keywords_decision, query_pairs, route, route_is_defined, KeywordsDecision, Method, Route,
};

fn words(ws: &[&str]) -> Vec<String> {
    ws.iter().map(|w| w.to_string()).collect()
}

fn reply(d: KeywordsDecision) -> (u16, String) {
    match d {
        KeywordsDecision::Reply { status, body } => (status, body),
        KeywordsDecision::Accept(_) => panic!("accepted"),
    }
}

fn accepted(d: KeywordsDecision) -> Vec<String> {
    match d {
        KeywordsDecision::Accept(list) => list,
        KeywordsDecision::Reply { .. } => panic!("refused"),
    }
}

fn route_name(r: Route) -> String {
    match r {
        Route::ApiPost => "api-post".to_string(),
        Route::ApiGet => "api-get".to_string(),
        Route::Page(p) => format!("page:{}", p),
        Route::Chart => "chart".to_string(),
        Route::ChartSvg => "chart.svg".to_string(),
        Route::Svg(f) => format!("svg:{}", f),
        Route::BadRequest => "bad".to_string(),
    }
}

#[test]
fn routes() {
    assert_eq!(route_name(route(Method::Post, "/api/")), "api-post");
    assert_eq!(route_name(route(Method::Get, "/api/")), "api-get");
    assert_eq!(route_name(route(Method::Get, "/")), "page:index.html");
    assert_eq!(route_name(route(Method::Get, "/use")), "page:use.html");
    assert_eq!(route_name(route(Method::Get, "/about")), "page:about.html");
    assert_eq!(route_name(route(Method::Get, "/request")), "chart");
    assert_eq!(route_name(route(Method::Get, "/chart.svg")), "chart.svg");
    assert_eq!(route_name(route(Method::Get, "/Ab12.svg")), "svg:Ab12.svg");
    assert_eq!(route_name(route(Method::Get, "/elsewhere")), "page:index.html");
    // The chart example posts its keywords to `/`, which is answered like `/api/`.
    assert_eq!(route_name(route(Method::Post, "/")), "api-post");
    assert_eq!(route_name(route(Method::Post, "/use")), "bad");
    assert_eq!(route_name(route(Method::Other, "/api/")), "bad");
}

#[test]
fn route_of_a_path_cut_inside_a_character() {
    assert!(!route_is_defined(Method::Get, "é.svg"));
    assert!(route_is_defined(Method::Get, "é"));
    assert!(route_is_defined(Method::Get, "/x.svg"));
}

#[test]
fn query_parameters() {
    let pairs = query_pairs(Some("keywords=rust,go&time=today+12-m&geo=U%53&tz=1&tz=2"));
    assert_eq!(param_value(&pairs, "keywords").as_deref(), Some("rust,go"));
    assert_eq!(param_value(&pairs, "missing"), None);
    let p = api_params(&pairs);
    assert_eq!(p.base_url, "https://trends.google.com/trends/api/");
    assert_eq!(p.tz, "2");
    assert_eq!(p.hl, "en");
    assert_eq!(p.time, "today 12-m");
    assert_eq!(p.geo, "US");
    assert!(p.keywords.is_none());
    let d = api_params(&query_pairs(None));
    assert_eq!((d.tz.as_str(), d.hl.as_str(), d.time.as_str(), d.geo.as_str()), ("0", "en", "now 7-d", ""));
}

#[test]
fn post_keywords() {
    assert_eq!(accepted(post_keywords_decision(b"{\"keywords\": [\"rust\", \"\\\"go\\\"\"]}")), words(&["rust", "go"]));
    assert_eq!(
        reply(post_keywords_decision(b"{\"keywords\": [\"rust\", 3]}")),
        (400, "JSON contains empty keywords. Post request should contain json: {\"keywords\": [your \"quoted\" keywords comma separated]}".to_string())
    );
    assert_eq!(reply(post_keywords_decision(b"{\"keywords\": []}")).0, 400);
    assert_eq!(
        reply(post_keywords_decision(b"{\"words\": [\"a\"]}")),
        (400, "No keywords. Post request should contain json: {\"keywords\": [your \"quoted\" keywords comma separated]}".to_string())
    );
    assert_eq!(reply(post_keywords_decision(b"[1]")).1, "No keywords. Post request should contain json: {\"keywords\": [your \"quoted\" keywords comma separated]}");
    assert_eq!(
        reply(post_keywords_decision(b"{keywords")),
        (400, "JSON format error. Post request should contain json: {\"keywords\": [your \"quoted\" keywords comma separated]}".to_string())
    );
}

#[test]
fn list_keywords_trims_and_blanks() {
    let entries = vec![Some("\"a\"".to_string()), None, Some("b".to_string())];
    assert_eq!(list_keywords(&entries), words(&["a", "", "b"]));
}

#[test]
fn get_keywords() {
    assert_eq!(accepted(get_keywords_decision(Some("rust,\"go\",c++".to_string()))), words(&["rust", "go", "c++"]));
    assert_eq!(
        reply(get_keywords_decision(Some("rust,,go".to_string()))),
        (400, "Keyword format error. Get request sould contain ../api/?keywords=your keywords comma separated".to_string())
    );
    assert_eq!(reply(get_keywords_decision(Some(String::new()))).0, 400);
    assert_eq!(
        reply(get_keywords_decision(None)),
        (200, "No keywords. Get request sould contain ../api/?keywords=your keywords comma separated".to_string())
    );
}

#[test]
fn chart_pages() {
    let name = generate_string();
    assert_eq!(name.chars().count(), 16);
    assert!(name.chars().all(|c| c.is_ascii_alphanumeric()));
    assert_ne!(generate_string(), generate_string());
    assert_eq!(chart_file_name("abc"), "abc.svg");
    assert_eq!(chart_data_url("keywords=a,b"), "http://127.0.0.1:8000/api/?keywords=a,b");
    let page = "<img src=\"chart.svg\"><a href=\"chart.svg\">";
    assert_eq!(chart_page(page, "x.svg", true), "<img src=\"x.svg\"><a href=\"x.svg\">");
    assert_eq!(chart_page(page, "x.svg", false), page);
}

#[test]
fn keywords_field_decisions() {
    assert_eq!(accepted(keywords_decision(Some(Some(vec![Some("\"x\"".to_string())])))), words(&["x"]));
    assert_eq!(reply(keywords_decision(Some(Some(vec![Some("\"\"".to_string())])))).0, 400);
    assert_eq!(reply(keywords_decision(Some(None))).1, "No keywords. Post request should contain json: {\"keywords\": [your \"quoted\" keywords comma separated]}");
    assert_eq!(reply(keywords_decision(None)).1, "JSON format error. Post request should contain json: {\"keywords\": [your \"quoted\" keywords comma separated]}");
}

#[test]
fn chart_example_request_is_accepted() {
    // The chart example posts six languages to `/?time=today+12-m`.
    assert_eq!(route_name(route(Method::Post, "/")), "api-post");
    let pairs = query_pairs(Some("time=today+12-m"));
    assert_eq!(api_params(&pairs).time, "today 12-m");
    let body = b"{\"keywords\": [\"rust\", \"go\", \"python\", \"java\", \"c++\", \"javascript\"]}";
    assert_eq!(accepted(post_keywords_decision(body)), words(&["rust", "go", "python", "java", "c++", "javascript"]));
}
