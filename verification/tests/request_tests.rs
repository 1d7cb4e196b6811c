use gtrends::request::{apply_timeline, data_request, widget_data_url, data_url, explore_url, req_explore, strip_reply_guard, timeline_points, QueryError, ReqParams};

fn params() -> ReqParams {
    ReqParams {
        base_url: "https://trends.google.com/trends/api/".to_string(),
        tz: "0".to_string(),
        hl: "en".to_string(),
        time: "now 7-d".to_string(),
        geo: "".to_string(),
        keywords: None,
    }
}

fn words(ws: &[&str]) -> Vec<String> {
    ws.iter().map(|w| w.to_string()).collect()
}

#[test]
fn req_explore_lists_every_keyword() {
    assert_eq!(
        req_explore(&words(&["rust", "go"]), "US", "today 12-m"),
        "{\"comparisonItem\":[{\"keyword\":\"rust\",\"geo\":\"US\",\"time\":\"today 12-m\"},{\"keyword\":\"go\",\"geo\":\"US\",\"time\":\"today 12-m\"}],\"category\":0,\"property\":\"\"}"
    );
    assert_eq!(
        req_explore(&words(&["x"]), "", "now 7-d"),
        "{\"comparisonItem\":[{\"keyword\":\"x\",\"geo\":\"\",\"time\":\"now 7-d\"}],\"category\":0,\"property\":\"\"}"
    );
}

#[test]
fn urls_of_a_request() {
    assert_eq!(
        explore_url(&params(), &words(&["x"])),
        "https://trends.google.com/trends/api/explore?hl=en&tz=0&req={\"comparisonItem\":[{\"keyword\":\"x\",\"geo\":\"\",\"time\":\"now 7-d\"}],\"category\":0,\"property\":\"\"}"
    );
    assert_eq!(
        data_url(&params(), "{\"a\":1}", "TOK"),
        "https://trends.google.com/trends/api/widgetdata/multiline?hl=en&tz=0&req={\"a\":1}&token=TOK"
    );
}

#[test]
fn reply_guard_is_cut() {
    assert_eq!(strip_reply_guard(")]}',\n{}").as_deref(), Some("\n{}"));
    assert_eq!(strip_reply_guard(")]}'"), None);
}

#[test]
fn data_request_reads_the_first_widget() {
    let reply = "{\"widgets\":[{\"token\":\"APP6\",\"request\":{\"time\":\"x\",\"n\":1}},{\"token\":\"other\"}]}";
    assert_eq!(
        data_request(&params(), reply).unwrap(),
        "https://trends.google.com/trends/api/widgetdata/multiline?hl=en&tz=0&req={\"n\":1,\"time\":\"x\"}&token=APP6"
    );
    assert_eq!(data_request(&params(), "not json"), Err(QueryError::InvalidJson));
    assert_eq!(
        data_request(&params(), "{}").unwrap(),
        "https://trends.google.com/trends/api/widgetdata/multiline?hl=en&tz=0&req=null&token=null"
    );
}

const TIMELINE: &str = "{\"default\":{\"timelineData\":[{\"time\":\"200\",\"formattedAxisTime\":\"Feb\",\"value\":[7,1]},{\"time\":\"100\",\"formattedAxisTime\":\"Jan\",\"value\":[3,100]}]}}";

#[test]
fn timeline_points_are_read() {
    let points = timeline_points(TIMELINE).unwrap();
    assert_eq!(points.len(), 2);
    assert_eq!(points[0].time, "\"200\"");
    assert_eq!(points[0].formatted_axis_time.as_deref(), Some("Feb"));
    assert_eq!(points[0].value, Some(vec!["7".to_string(), "1".to_string()]));
    assert_eq!(timeline_points("{").err(), Some(QueryError::InvalidJson));
    assert_eq!(timeline_points("{\"default\":{}}").err(), Some(QueryError::Malformed));
}

#[test]
fn timeline_fills_and_sorts_timing() {
    let points = timeline_points(TIMELINE).unwrap();
    let (trends, timing) = apply_timeline(&words(&["a", "b"]), &points, vec![], false).unwrap();
    assert_eq!(timing, vec![(100, "Jan".to_string()), (200, "Feb".to_string())]);
    assert_eq!(trends.len(), 2);
    assert_eq!(trends[0].title, "a");
    assert_eq!(trends[1].title, "b");
    // Values follow the reply's point order, times the sorted table.
    assert_eq!(trends[0].data[0].value, 7);
    assert_eq!(trends[0].data[0].time, 100);
    assert_eq!(trends[0].data[0].formatted_time, "Jan");
    assert_eq!(trends[1].data[1].value, 100);
    assert_eq!(trends[1].data[1].time, 200);
}

#[test]
fn timeline_keeps_an_earlier_table() {
    let points = timeline_points(TIMELINE).unwrap();
    let earlier = vec![(5, "x".to_string()), (6, "y".to_string())];
    let (trends, timing) = apply_timeline(&words(&["a"]), &points, earlier.clone(), true).unwrap();
    assert_eq!(timing, earlier);
    assert_eq!(trends[0].data[0].time, 5);
}

#[test]
fn timeline_failures() {
    let bad_time = timeline_points("{\"default\":{\"timelineData\":[{\"time\":\"x\",\"formattedAxisTime\":\"F\",\"value\":[1]}]}}").unwrap();
    assert_eq!(apply_timeline(&words(&["a"]), &bad_time, vec![], false).err(), Some(QueryError::InvalidNumber));
    let no_label = timeline_points("{\"default\":{\"timelineData\":[{\"time\":1,\"value\":[1]}]}}").unwrap();
    assert_eq!(apply_timeline(&words(&["a"]), &no_label, vec![], false).err(), Some(QueryError::Malformed));
    let big = timeline_points("{\"default\":{\"timelineData\":[{\"time\":1,\"formattedAxisTime\":\"F\",\"value\":[300]}]}}").unwrap();
    assert_eq!(apply_timeline(&words(&["a"]), &big, vec![], false).err(), Some(QueryError::InvalidNumber));
    let short = timeline_points("{\"default\":{\"timelineData\":[{\"time\":1,\"formattedAxisTime\":\"F\",\"value\":[3]}]}}").unwrap();
    assert_eq!(apply_timeline(&words(&["a", "b"]), &short, vec![], false).err(), Some(QueryError::Malformed));
    // The timing table is shorter than the points.
    assert_eq!(apply_timeline(&words(&["a"]), &short, vec![], true).err(), Some(QueryError::Malformed));
}

#[test]
fn widget_url_trims_the_token() {
    assert_eq!(
        widget_data_url(&params(), "\"T0K\"", "{\"a\":1}"),
        "https://trends.google.com/trends/api/widgetdata/multiline?hl=en&tz=0&req={\"a\":1}&token=T0K"
    );
}
