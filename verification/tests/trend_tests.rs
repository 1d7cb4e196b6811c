use gtrends::trend::{strongest_trend, zip_trends, Data, Trend};
use gtrends::chunks::{chunk_keywords, keyword_group_size};
use gtrends::timing::sort_timing_table;

fn trend(title: &str, values: &[u8]) -> Trend {
    Trend {
        title: title.to_string(),
        data: values
            .iter()
            .enumerate()
            .map(|(i, v)| Data { time: i as u32, formatted_time: format!("t{}", i), value: *v })
            .collect(),
    }
}

fn words(ws: &[&str]) -> Vec<String> {
    ws.iter().map(|w| w.to_string()).collect()
}

#[test]
fn new_trend_is_empty() {
    let t = Trend::new();
    assert_eq!(t.title, "");
    assert!(t.data.is_empty());
    assert_eq!(t.find_max_value(), 0);
}

#[test]
fn find_max_value_is_the_peak() {
    assert_eq!(trend("a", &[3, 9, 2]).find_max_value(), 9);
    assert_eq!(trend("a", &[0, 0]).find_max_value(), 0);
    assert_eq!(trend("a", &[100]).find_max_value(), 100);
}

#[test]
fn strongest_keeps_first_of_equal_peaks() {
    let best = strongest_trend(vec![trend("a", &[1, 5]), trend("b", &[5, 2]), trend("c", &[4])]);
    assert_eq!(best.title, "a");
    let best = strongest_trend(vec![trend("a", &[1]), trend("b", &[7]), trend("c", &[7])]);
    assert_eq!(best.title, "b");
}

#[test]
fn strongest_of_flat_trends_is_empty() {
    let best = strongest_trend(vec![trend("a", &[0, 0]), trend("b", &[0])]);
    assert_eq!(best.title, "");
    assert!(best.data.is_empty());
    let best = strongest_trend(vec![]);
    assert_eq!(best.title, "");
}

#[test]
fn zip_puts_keywords_side_by_side() {
    let timing = vec![(10u32, "Jan".to_string()), (20u32, "Feb".to_string())];
    let r = zip_trends(&vec![trend("a", &[1, 2]), trend("b", &[3, 4]), trend("a", &[5, 6])], &timing).unwrap();
    assert_eq!(r.titles, words(&["a", "b"]));
    assert_eq!(r.data.len(), 2);
    assert_eq!(r.data[0].time, 10);
    assert_eq!(r.data[0].formatted_time, "Jan");
    assert_eq!(r.data[0].value, vec![1, 3, 5]);
    assert_eq!(r.data[1].time, 20);
    assert_eq!(r.data[1].value, vec![2, 4, 6]);
}

#[test]
fn zip_without_points_lists_no_titles() {
    let r = zip_trends(&vec![trend("a", &[]), trend("b", &[1])], &vec![]).unwrap();
    assert!(r.titles.is_empty());
    assert!(r.data.is_empty());
}

#[test]
fn zip_refuses_short_inputs() {
    assert!(zip_trends(&vec![], &vec![]).is_none());
    assert!(zip_trends(&vec![trend("a", &[1, 2]), trend("b", &[1])], &vec![(1, "x".to_string()), (2, "y".to_string())]).is_none());
    assert!(zip_trends(&vec![trend("a", &[1, 2])], &vec![(1, "x".to_string())]).is_none());
}

#[test]
fn chunks_follow_slice_chunks() {
    let list = words(&["a", "b", "c", "d", "e", "f", "g", "h", "i"]);
    for n in 1..6 {
        let expected: Vec<Vec<String>> = list.chunks(n).map(|c| c.to_vec()).collect();
        assert_eq!(chunk_keywords(&list, n), expected);
    }
    assert!(chunk_keywords(&vec![], 4).is_empty());
}

#[test]
fn group_size_is_four_above_five() {
    assert_eq!(keyword_group_size(0), 5);
    assert_eq!(keyword_group_size(5), 5);
    assert_eq!(keyword_group_size(6), 4);
    assert_eq!(keyword_group_size(40), 4);
}

#[test]
fn timing_sort_matches_slice_sort() {
    let table = vec![
        (30u32, "b".to_string()),
        (10u32, "z".to_string()),
        (30u32, "a".to_string()),
        (20u32, "é".to_string()),
        (20u32, "e".to_string()),
        (10u32, "z".to_string()),
    ];
    let mut expected = table.clone();
    expected.sort();
    let sorted = sort_timing_table(table);
    assert_eq!(sorted, expected);
    assert_eq!(sort_timing_table(sorted.clone()), sorted);
}
