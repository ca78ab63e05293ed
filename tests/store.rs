use simdb::query::{all, date_le, latest, sort_by_date, NoEntries};
use simdb::record::Item;
use simdb::store::{add, add_record, load, to_text, FormatError};
use simdb::text::{split_on, trim_cr};

fn item(name: &str, date: &str, category: &str) -> Item {
    Item::new(name, date, category)
}

fn lines(items: &[Item]) -> Vec<String> {
    items.iter().map(|i| i.to_string()).collect()
}

#[test]
fn item_to_string_joins_fields() {
    let i = item("Buy milk", "2024-01-02T03:04:05Z", "errand");
    assert_eq!(i.to_string(), "Buy milk,2024-01-02T03:04:05Z,errand");
}

#[test]
fn item_equality_compares_all_fields() {
    assert_eq!(item("a", "d", "c"), item("a", "d", "c"));
    assert_ne!(item("a", "d", "c"), item("a", "d", "x"));
    assert_ne!(item("a", "d", "c"), item("b", "d", "c"));
    assert_ne!(item("a", "d", "c"), item("a", "e", "c"));
}

#[test]
fn from_line_needs_exactly_three_fields() {
    assert_eq!(Item::from_line("a,b,c"), Some(item("a", "b", "c")));
    assert_eq!(Item::from_line(",,"), Some(item("", "", "")));
    assert_eq!(Item::from_line("a,b"), None);
    assert_eq!(Item::from_line("a,b,c,d"), None);
    assert_eq!(Item::from_line("abc"), None);
}

#[test]
fn record_round_trip() {
    let i = item("Write report", "2024-05-06T07:08:09+02:00", "work");
    let back = Item::from_line(&i.to_string()).unwrap();
    assert_eq!(back, i);
}

#[test]
fn split_on_keeps_empty_pieces() {
    assert_eq!(split_on("a,,b", ','), vec!["a", "", "b"]);
    assert_eq!(split_on("", ','), vec![""]);
    assert_eq!(split_on("x\n", '\n'), vec!["x", ""]);
}

#[test]
fn load_missing_or_empty_file_is_empty() {
    assert_eq!(load(None), Ok(vec![]));
    assert_eq!(load(Some("")), Ok(vec![]));
    assert_eq!(load(Some("\n\n")), Ok(vec![]));
}

#[test]
fn load_reads_lines_in_file_order() {
    let got = load(Some("b,2024-02-01T00:00:00Z,home\n\na,2024-01-01T00:00:00Z,work\n")).unwrap();
    assert_eq!(
        got,
        vec![
            item("b", "2024-02-01T00:00:00Z", "home"),
            item("a", "2024-01-01T00:00:00Z", "work"),
        ]
    );
}

#[test]
fn load_without_trailing_newline() {
    assert_eq!(load(Some("a,d,c")), Ok(vec![item("a", "d", "c")]));
}

#[test]
fn load_rejects_short_line() {
    assert_eq!(load(Some("a,d,c\nbroken\n")), Err(FormatError { line: 2 }));
    assert_eq!(load(Some("a,d\nb,e,f\n")), Err(FormatError { line: 1 }));
}

#[test]
fn load_rejects_long_line() {
    assert_eq!(load(Some("\n\na,b,c,d\nx\n")), Err(FormatError { line: 3 }));
}

#[test]
fn load_is_idempotent() {
    let text = "a,2024-01-01T00:00:00Z,work\nb,2023-01-01T00:00:00Z,none\n";
    assert_eq!(load(Some(text)), load(Some(text)));
    assert_eq!(load(None), load(Some("")));
}

#[test]
fn store_text_round_trip() {
    let items = vec![
        item("Buy milk", "2024-01-02T03:04:05Z", "errand"),
        item("Write report", "2024-01-02T03:04:06Z", "work"),
    ];
    let text = to_text(&items);
    assert_eq!(text, "Buy milk,2024-01-02T03:04:05Z,errand\nWrite report,2024-01-02T03:04:06Z,work\n");
    assert_eq!(load(Some(&text)), Ok(items));
}

#[test]
fn to_text_of_nothing_is_empty() {
    assert_eq!(to_text(&vec![]), "");
}

#[test]
fn add_record_defaults_category() {
    let mut items = vec![];
    add_record(&mut items, "foo", "2024-01-01T00:00:00Z", None);
    add_record(&mut items, "bar", "2024-01-01T00:00:01Z", Some("work"));
    assert_eq!(
        items,
        vec![
            item("foo", "2024-01-01T00:00:00Z", "none"),
            item("bar", "2024-01-01T00:00:01Z", "work"),
        ]
    );
}

#[test]
fn add_then_all_default_category() {
    let mut items = vec![];
    add(&mut items, "foo", None);
    let text = to_text(&items);
    let got = all(load(Some(&text)).unwrap()).unwrap();
    assert_eq!(got.len(), 1);
    assert_eq!(got[0].name, "foo");
    assert_eq!(got[0].category, "none");
}

#[test]
fn add_dates_with_current_time() {
    let mut items = vec![];
    add(&mut items, "x", Some("c"));
    let date = &items[0].date;
    assert!(date.len() >= 20);
    assert!(date.as_bytes()[0].is_ascii_digit());
    assert_eq!(&date[4..5], "-");
    assert_eq!(&date[10..11], "T");
    assert!(!date.contains(','));
    assert!(!date.contains('\n'));
}

#[test]
fn date_le_is_string_order() {
    assert!(date_le("2024-01-01", "2024-01-02"));
    assert!(date_le("2024-01-01", "2024-01-01"));
    assert!(!date_le("2024-01-02", "2024-01-01"));
    assert!(date_le("", "a"));
    assert!(date_le("abc", "abcd"));
    assert!(!date_le("abcd", "abc"));
    assert!(!date_le("b", "abc"));
}

#[test]
fn sort_by_date_orders_and_keeps_ties() {
    let items = vec![
        item("c", "2024-03-01", "x"),
        item("a", "2024-01-01", "x"),
        item("t1", "2024-02-01", "x"),
        item("t2", "2024-02-01", "y"),
    ];
    let got = sort_by_date(items);
    assert_eq!(
        lines(&got),
        vec!["a,2024-01-01,x", "t1,2024-02-01,x", "t2,2024-02-01,y", "c,2024-03-01,x"]
    );
}

#[test]
fn all_is_ordered_by_date() {
    let items = vec![
        item("n3", "2024-03-01T00:00:00Z", "a"),
        item("n1", "2024-01-01T00:00:00Z", "b"),
        item("n2", "2024-02-01T00:00:00Z", "a"),
    ];
    let got = all(items).unwrap();
    for w in got.windows(2) {
        assert!(w[0].date <= w[1].date);
    }
    assert_eq!(
        lines(&got),
        vec![
            "n1,2024-01-01T00:00:00Z,b",
            "n2,2024-02-01T00:00:00Z,a",
            "n3,2024-03-01T00:00:00Z,a",
        ]
    );
}

#[test]
fn empty_store_reports_no_entries() {
    assert_eq!(latest(vec![], None), Err(NoEntries));
    assert_eq!(latest(vec![], Some("work")), Err(NoEntries));
    assert_eq!(all(vec![]), Err(NoEntries));
    assert_eq!(all(load(Some("")).unwrap()), Err(NoEntries));
}

#[test]
fn latest_without_category_is_earliest() {
    let items = vec![
        item("later", "2024-05-01T00:00:00Z", "a"),
        item("first", "2024-01-01T00:00:00Z", "b"),
    ];
    assert_eq!(latest(items, None), Ok(vec![item("first", "2024-01-01T00:00:00Z", "b")]));
}

#[test]
fn latest_with_unknown_category_is_empty() {
    let items = vec![item("a", "2024-01-01T00:00:00Z", "work")];
    assert_eq!(latest(items, Some("home")), Ok(vec![]));
}

#[test]
fn category_filter_keeps_exact_matches() {
    let items = vec![
        item("w2", "2024-02-01T00:00:00Z", "work"),
        item("h", "2024-01-15T00:00:00Z", "home"),
        item("w1", "2024-01-01T00:00:00Z", "work"),
        item("wx", "2024-01-10T00:00:00Z", "workshop"),
    ];
    let got = latest(items, Some("work")).unwrap();
    assert_eq!(lines(&got), vec!["w1,2024-01-01T00:00:00Z,work", "w2,2024-02-01T00:00:00Z,work"]);
}

#[test]
fn scenario_two_adds_then_all() {
    let mut items = vec![];
    add_record(&mut items, "Buy milk", "2024-01-02T03:04:05Z", Some("errand"));
    add_record(&mut items, "Write report", "2024-01-02T03:04:06Z", Some("work"));
    let text = to_text(&items);
    let got = all(load(Some(&text)).unwrap()).unwrap();
    assert_eq!(
        lines(&got),
        vec!["Buy milk,2024-01-02T03:04:05Z,errand", "Write report,2024-01-02T03:04:06Z,work"]
    );
}

#[test]
fn scenario_two_adds_with_clock() {
    let mut items = vec![];
    add(&mut items, "Buy milk", Some("errand"));
    add(&mut items, "Write report", Some("work"));
    let text = to_text(&items);
    let got = all(load(Some(&text)).unwrap()).unwrap();
    assert_eq!(got.len(), 2);
    assert_eq!(got[0].to_string(), format!("Buy milk,{},errand", items[0].date));
    assert_eq!(got[1].to_string(), format!("Write report,{},work", items[1].date));
}

#[test]
fn scenario_single_add_then_latest() {
    let mut items = vec![];
    add(&mut items, "X", None);
    let text = to_text(&items);
    let got = latest(load(Some(&text)).unwrap(), None).unwrap();
    assert_eq!(got.len(), 1);
    assert_eq!(got[0].name, "X");
    assert_eq!(got[0].category, "none");
}

#[test]
fn scenario_latest_by_category() {
    let mut items = vec![];
    add(&mut items, "A", Some("work"));
    add(&mut items, "B", Some("home"));
    let text = to_text(&items);
    let got = latest(load(Some(&text)).unwrap(), Some("home")).unwrap();
    assert_eq!(got.len(), 1);
    assert_eq!(got[0].name, "B");
    assert_eq!(got[0].category, "home");
}

#[test]
fn trim_cr_drops_one_trailing_carriage_return() {
    assert_eq!(trim_cr("a,b,c\r"), "a,b,c");
    assert_eq!(trim_cr("a\rb\r\r"), "a\rb\r");
    assert_eq!(trim_cr("\r"), "");
    assert_eq!(trim_cr("abc"), "abc");
    assert_eq!(trim_cr(""), "");
}

#[test]
fn load_keeps_cr_without_line_feed() {
    assert_eq!(load(Some("a,b,c\r")), Ok(vec![item("a", "b", "c\r")]));
}

#[test]
fn load_drops_one_cr_before_line_feed() {
    assert_eq!(load(Some("a,b,c\r\r\n")), Ok(vec![item("a", "b", "c\r")]));
}

#[test]
fn load_rejects_line_of_carriage_return() {
    assert_eq!(load(Some("\r")), Err(FormatError { line: 1 }));
    assert_eq!(load(Some("\r\r\n")), Err(FormatError { line: 1 }));
    assert_eq!(load(Some("\r\n")), Ok(vec![]));
}

#[test]
fn load_accepts_crlf_line_ends() {
    let got = load(Some("a,2024-01-01T00:00:00Z,work\r\n\r\nb,2024-01-02T00:00:00Z,home\r\n")).unwrap();
    assert_eq!(
        got,
        vec![
            item("a", "2024-01-01T00:00:00Z", "work"),
            item("b", "2024-01-02T00:00:00Z", "home"),
        ]
    );
}

#[test]
fn reload_loses_one_trailing_cr_of_category() {
    let first = load(Some("a,d,c\r")).unwrap();
    let text = to_text(&first);
    assert_eq!(text, "a,d,c\r\n");
    assert_eq!(load(Some(&text)), Ok(vec![item("a", "d", "c")]));
}

#[test]
fn reload_of_loaded_store_is_unchanged() {
    let first = load(Some("a,2024-01-01T00:00:00Z,work\r\nb,2024-01-02T00:00:00Z,\n")).unwrap();
    let text = to_text(&first);
    assert_eq!(load(Some(&text)), Ok(first));
}
