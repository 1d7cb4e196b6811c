use gtrends::query::{QueryAction, QueryEvent, QueryState, Stage, TrendRequest};
use gtrends::request::{QueryError, ReqParams};
use gtrends::trend::TrendResponse;

fn params() -> ReqParams {
    ReqParams {
        base_url: "https://trends.google.com/trends/api/".to_string(),
        tz: "0".to_string(),
        hl: "en".to_string(),
        time: "now 7-d".to_string(),
        geo: "".to_string(),
        keywords: None,
    }
}

fn words(ws: &[&str]) -> Vec<String> {
    ws.iter().map(|w| w.to_string()).collect()
}

/// A keyword's popularity in these tests: its length times ten.
fn peak(keyword: &str) -> u32 {
    keyword.len() as u32 * 10
}

/// Upstream's data reply for a group: two points, each keyword scaled so that
/// the group's strongest keyword peaks at 100.
fn data_reply(group: &[String]) -> String {
    let top = group.iter().map(|k| peak(k)).max().unwrap().max(1);
    let values: Vec<String> = group.iter().map(|k| (peak(k) * 100 / top).to_string()).collect();
    let halves: Vec<String> = group.iter().map(|k| (peak(k) * 50 / top).to_string()).collect();
    format!(
        ")]}}',{{\"default\":{{\"timelineData\":[{{\"time\":\"200\",\"formattedAxisTime\":\"Feb\",\"value\":[{}]}},{{\"time\":\"100\",\"formattedAxisTime\":\"Jan\",\"value\":[{}]}}]}}}}",
        values.join(","),
        halves.join(",")
    )
}

const EXPLORE_REPLY: &str = ")]}'\n{\"widgets\":[{\"token\":\"TOK\",\"request\":{\"r\":1}}]}";

/// Runs a query against the fake upstream; returns its end and the groups requested.
fn run(list: &[&str], session: Option<Vec<u8>>) -> (QueryAction, Vec<Vec<String>>) {
    let (mut state, mut action): (QueryState, QueryAction) =
        TrendRequest { req_params: params(), req_list: words(list) }.query();
    let mut groups = Vec::new();
    let mut session = Some(session);
    for _ in 0..100 {
        let event = match &action {
            QueryAction::OpenSession => QueryEvent::Session(session.take().unwrap()),
            QueryAction::Fetch { url, cookie } => {
                assert_eq!(cookie, &b"sid=1".to_vec());
                if state.stage == Stage::Explore {
                    assert!(url.contains("explore?hl=en&tz=0&req="));
                    groups.push(state.current.clone());
                    QueryEvent::Reply(EXPLORE_REPLY.to_string())
                } else {
                    assert_eq!(url, "https://trends.google.com/trends/api/widgetdata/multiline?hl=en&tz=0&req={\"r\":1}&token=TOK");
                    QueryEvent::Reply(data_reply(&state.current))
                }
            }
            _ => return (action, groups),
        };
        let (s, a) = state.step(event);
        state = s;
        action = a;
        // The stage and the action agree.
        match &action {
            QueryAction::Fetch { .. } => assert!(state.stage == Stage::Explore || state.stage == Stage::Data),
            QueryAction::Respond(_) | QueryAction::Fail(_) => assert_eq!(state.stage, Stage::Finished),
            QueryAction::OpenSession => panic!("a second session"),
        }
        // The timing table stays sorted.
        let mut sorted = state.timing.clone();
        sorted.sort();
        assert_eq!(sorted, state.timing);
    }
    panic!("the query did not finish");
}

fn response(a: QueryAction) -> TrendResponse {
    match a {
        QueryAction::Respond(r) => r,
        _ => panic!("no answer"),
    }
}

#[test]
fn few_keywords_take_one_request() {
    let (end, groups) = run(&["go", "rust", "c"], Some(b"sid=1".to_vec()));
    assert_eq!(groups, vec![words(&["go", "rust", "c"])]);
    let r = response(end);
    assert_eq!(r.titles, words(&["go", "rust", "c"]));
    assert_eq!(r.data.len(), 2);
    // Times come from the sorted timing table, values in the reply's point order.
    assert_eq!(r.data[0].time, 100);
    assert_eq!(r.data[0].formatted_time, "Jan");
    assert_eq!(r.data[0].value, vec![50, 100, 25]);
    assert_eq!(r.data[1].time, 200);
    assert_eq!(r.data[1].value, vec![25, 50, 12]);
}

#[test]
fn many_keywords_play_a_tournament() {
    let list = ["a", "bb", "ccc", "dddd", "eeeee", "ffffff"];
    let (end, groups) = run(&list, Some(b"sid=1".to_vec()));
    assert_eq!(
        groups,
        vec![
            words(&["a", "bb", "ccc", "dddd"]),
            words(&["eeeee", "ffffff"]),
            words(&["dddd", "ffffff"]),
            words(&["a", "bb", "ccc", "dddd", "ffffff"]),
            words(&["eeeee", "ffffff"]),
        ]
    );
    let r = response(end);
    assert_eq!(r.titles, words(&["a", "bb", "ccc", "dddd", "eeeee", "ffffff"]));
    // Every value is scaled to the overall strongest keyword.
    assert_eq!(r.data[0].value, vec![16, 33, 50, 66, 83, 100]);
    assert_eq!(r.data[1].value, vec![8, 16, 25, 33, 41, 50]);
}

#[test]
fn tournament_with_two_rounds() {
    let list: Vec<String> = (1..=24).map(|i| "k".repeat(i)).collect();
    let refs: Vec<&str> = list.iter().map(|s| s.as_str()).collect();
    let (end, groups) = run(&refs, Some(b"sid=1".to_vec()));
    // 6 main groups, 2 groups in the first round, 1 in the second, 6 final groups.
    assert_eq!(groups.len(), 6 + 2 + 1 + 6);
    let strongest = "k".repeat(24);
    for g in &groups[9..] {
        assert_eq!(g.iter().filter(|k| **k == strongest).count(), 1);
    }
    let r = response(end);
    assert_eq!(r.titles, list);
    assert_eq!(r.data[0].value.len(), 24);
    assert_eq!(r.data[0].value[23], 100);
}

#[test]
fn no_session_cookie_stops_the_query() {
    let (end, groups) = run(&["a", "b"], None);
    assert!(groups.is_empty());
    assert!(matches!(end, QueryAction::Fail(QueryError::Malformed)));
}

#[test]
fn bad_replies_fail_the_query() {
    let (state, _) = TrendRequest { req_params: params(), req_list: words(&["a"]) }.query();
    let (state, action) = state.step(QueryEvent::Session(Some(b"sid=1".to_vec())));
    assert!(matches!(action, QueryAction::Fetch { .. }));
    let (state, action) = state.step(QueryEvent::Reply(")]}'\nnot json".to_string()));
    assert!(matches!(action, QueryAction::Fail(QueryError::InvalidJson)));
    assert_eq!(state.stage, Stage::Finished);
    let (_, action) = state.step(QueryEvent::Reply(String::new()));
    assert!(matches!(action, QueryAction::Fail(QueryError::UnexpectedEvent)));
}

#[test]
fn short_reply_is_malformed() {
    let (state, _) = TrendRequest { req_params: params(), req_list: words(&["a"]) }.query();
    let (state, _) = state.step(QueryEvent::Session(Some(b"sid=1".to_vec())));
    let (_, action) = state.step(QueryEvent::Reply("ab".to_string()));
    assert!(matches!(action, QueryAction::Fail(QueryError::Malformed)));
}
