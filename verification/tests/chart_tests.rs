use gtrends::chart::{chart_is_complete, chart_reply, chart_series};

#[test]
fn chart_lines_from_an_answer() {
    let text = "{\"titles\":[\"a\",\"b\"],\"data\":[{\"time\":100,\"formatted_time\":\"Jan\",\"value\":[1,2]},{\"time\":200,\"formatted_time\":\"Feb\",\"value\":[3,4]}]}";
    let reply = chart_reply(text).unwrap();
    assert!(chart_is_complete(&reply));
    let (lines, times) = chart_series(&reply);
    assert_eq!(lines.len(), 2);
    assert_eq!(lines[0].keyword, "a");
    assert_eq!(lines[0].data, vec![1, 3]);
    assert_eq!(lines[1].keyword, "b");
    assert_eq!(lines[1].data, vec![2, 4]);
    assert_eq!(times, vec![100, 200]);
}

#[test]
fn incomplete_answers() {
    assert!(chart_reply("oops").is_none());
    for text in [
        "{\"titles\":[\"a\"]}",
        "{\"data\":[]}",
        "{\"titles\":[1],\"data\":[]}",
        "{\"titles\":[\"a\",\"b\"],\"data\":[{\"time\":1,\"value\":[1]}]}",
        "{\"titles\":[\"a\"],\"data\":[{\"time\":\"1\",\"value\":[1]}]}",
        "{\"titles\":[\"a\"],\"data\":[{\"time\":1,\"value\":[\"1\"]}]}",
    ] {
        let reply = chart_reply(text).unwrap();
        assert!(!chart_is_complete(&reply), "{}", text);
    }
    // Without titles the values are not read.
    let reply = chart_reply("{\"titles\":[],\"data\":[{\"time\":5}]}").unwrap();
    assert!(chart_is_complete(&reply));
    let (lines, times) = chart_series(&reply);
    assert!(lines.is_empty());
    assert_eq!(times, vec![5]);
}
