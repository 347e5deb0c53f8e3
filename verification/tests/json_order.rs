use rust_messenger::json::Json;
use rust_messenger::recency::newest_first_order;

#[test]
fn json_reads_and_writes() {
    let v = Json::parse("{\"b\": 1, \"a\": [true, null, -3, 2.5, \"x\"]}").unwrap();
    assert_eq!(v.render(), "{\"a\":[true,null,-3,2.5,\"x\"],\"b\":1}");
    assert!(Json::parse("{\"a\":").is_none());
    let got = v.get("b").unwrap().render();
    assert_eq!(got, "1");
    assert!(v.get("c").is_none());
    let copy = v.duplicate();
    assert_eq!(copy.render(), v.render());
}

#[test]
fn newest_first_is_a_stable_descending_sort() {
    assert_eq!(newest_first_order(&vec![5, 100, 5, 7]), vec![1, 3, 0, 2]);
    assert_eq!(newest_first_order(&vec![]), Vec::<usize>::new());
    assert_eq!(newest_first_order(&vec![1, 1, 1]), vec![0, 1, 2]);
    assert_eq!(newest_first_order(&vec![1, 2, 3]), vec![2, 1, 0]);
}

#[test]
fn strings_are_written_escaped() {
    assert_eq!(Json::Str("plain \u{e9}".to_string()).render(), "\"plain \u{e9}\"");
    assert_eq!(
        Json::Str("q\"b\\\u{8}\t\n\u{c}\r\u{1b}/".to_string()).render(),
        "\"q\\\"b\\\\\\b\\t\\n\\f\\r\\u001b/\""
    );
}
