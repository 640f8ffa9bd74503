use xdev::document::HostsFileStructure;
use xdev::markers::{
    create_subscription_block, extract_subscription_url_from_start_marker,
    is_subscription_end_marker, subscription_block_lines,
};
use xdev::operations::get_all_subscriptions;

const URL: &str = "https://example.com/hosts";

fn block(url: &str, now: u64, entries: &[&str]) -> Vec<String> {
    let mut v = vec![
        format!("# === xdev hosts subscription: {url} ==="),
        format!("# 订阅时间: {now} (UTC timestamp)"),
        String::new(),
    ];
    for e in entries {
        v.push(e.to_string());
    }
    v.push(String::new());
    v.push(format!("# === 结束 xdev hosts subscription: {url} ==="));
    v
}

#[test]
fn block_lines_filter_blank_and_comment_lines() {
    let lines = subscription_block_lines(URL, "1.2.3.4 example.test\n# comment\n", 100);
    assert_eq!(lines, block(URL, 100, &["1.2.3.4 example.test"]));
}

#[test]
fn block_lines_trim_entries_and_handle_crlf() {
    let content = "  10.0.0.1   a.test  \r\n\r\n   # note\r\n\t10.0.0.2 b.test";
    let lines = subscription_block_lines("http://h.test", content, 7);
    assert_eq!(lines, block("http://h.test", 7, &["10.0.0.1   a.test", "10.0.0.2 b.test"]));
}

#[test]
fn create_block_joins_lines() {
    let text = create_subscription_block(URL, "1.2.3.4 x.test\n", 42);
    assert_eq!(text, block(URL, 42, &["1.2.3.4 x.test"]).join("\n"));
}

#[test]
fn start_marker_yields_url() {
    let line = format!("# === xdev hosts subscription: {URL} ===");
    assert_eq!(extract_subscription_url_from_start_marker(&line), Some(URL.to_string()));
    assert_eq!(extract_subscription_url_from_start_marker("127.0.0.1 localhost"), None);
}

#[test]
fn overlapping_start_marker_is_not_a_marker() {
    assert_eq!(extract_subscription_url_from_start_marker("# === xdev hosts subscription: ==="), None);
    assert_eq!(
        extract_subscription_url_from_start_marker("# === xdev hosts subscription:  ==="),
        Some(String::new())
    );
}

#[test]
fn end_marker_is_recognized() {
    assert!(is_subscription_end_marker("# === 结束 xdev hosts subscription: x ==="));
    assert!(!is_subscription_end_marker("# === xdev hosts subscription: x ==="));
    assert!(!is_subscription_end_marker("# === 结束 xdev hosts subscription: x"));
}

#[test]
fn parse_tolerates_orphan_end_marker() {
    let orphan = "# === 结束 xdev hosts subscription: https://gone.test ===";
    let text = format!("127.0.0.1 localhost\n{orphan}\n::1 localhost\n");
    let doc = HostsFileStructure::parse(&text);
    assert_eq!(doc.other_content(), vec!["127.0.0.1 localhost", orphan, "::1 localhost"]);
    assert!(doc.get_all_subscriptions().is_empty());
    let out = doc.reconstruct();
    assert_eq!(out.lines().nth(1), Some(orphan));
    assert_eq!(out, format!("127.0.0.1 localhost\n{orphan}\n::1 localhost"));
}

#[test]
fn parse_keeps_block_left_open() {
    let text = format!("a\n# === xdev hosts subscription: {URL} ===\n1.1.1.1 one.test\n");
    let doc = HostsFileStructure::parse(&text);
    assert_eq!(doc.other_content(), vec!["a"]);
    assert_eq!(
        doc.subscription_block(URL),
        Some(vec![format!("# === xdev hosts subscription: {URL} ==="), "1.1.1.1 one.test".to_string()])
    );
}

#[test]
fn parse_keeps_one_block_per_url() {
    let first = block(URL, 1, &["1.1.1.1 old.test"]).join("\n");
    let other = block("https://other.test/h", 2, &["2.2.2.2 o.test"]).join("\n");
    let second = block(URL, 3, &["3.3.3.3 new.test"]).join("\n");
    let text = format!("{first}\n{other}\n{second}\n");
    let doc = HostsFileStructure::parse(&text);
    assert_eq!(doc.get_all_subscriptions(), vec![URL.to_string(), "https://other.test/h".to_string()]);
    assert_eq!(doc.subscription_block(URL), Some(block(URL, 3, &["3.3.3.3 new.test"])));
}

#[test]
fn round_trip_of_well_formed_document() {
    let mut doc = HostsFileStructure::new();
    doc.other_content.push("127.0.0.1 localhost".to_string());
    doc.add_or_update_subscription(URL, "1.2.3.4 a.test\n", 10);
    doc.add_or_update_subscription("https://two.test/list", "5.6.7.8 b.test\n", 11);
    let text = doc.reconstruct();
    let again = HostsFileStructure::parse(&text);
    assert_eq!(again.get_all_subscriptions(), doc.get_all_subscriptions());
    assert_eq!(again.subscription_block(URL), doc.subscription_block(URL));
    assert_eq!(
        again.subscription_block("https://two.test/list"),
        doc.subscription_block("https://two.test/list")
    );
    assert_eq!(again.other_content(), vec!["127.0.0.1 localhost", "", ""]);
    assert_eq!(again.reconstruct(), format!("127.0.0.1 localhost\n\n\n{}", text.split_once("\n\n").unwrap().1));
}

#[test]
fn resubscribe_same_content_differs_only_in_timestamp() {
    let mut doc = HostsFileStructure::parse("127.0.0.1 localhost\n");
    doc.add_or_update_subscription(URL, "1.2.3.4 a.test\n", 100);
    let first = doc.reconstruct();
    doc.add_or_update_subscription(URL, "1.2.3.4 a.test\n", 200);
    let second = doc.reconstruct();
    let a: Vec<&str> = first.lines().collect();
    let b: Vec<&str> = second.lines().collect();
    assert_eq!(a.len(), b.len());
    let differing: Vec<usize> = (0..a.len()).filter(|&i| a[i] != b[i]).collect();
    assert_eq!(differing.len(), 1);
    assert_eq!(a[differing[0]], "# 订阅时间: 100 (UTC timestamp)");
    assert_eq!(b[differing[0]], "# 订阅时间: 200 (UTC timestamp)");
}

#[test]
fn update_leaves_exactly_one_block_from_new_content() {
    let mut doc = HostsFileStructure::new();
    doc.add_or_update_subscription(URL, "1.1.1.1 old.test\n", 1);
    doc.add_or_update_subscription(URL, "2.2.2.2 new.test\n", 2);
    assert_eq!(doc.get_all_subscriptions(), vec![URL.to_string()]);
    assert_eq!(doc.subscription_block(URL), Some(block(URL, 2, &["2.2.2.2 new.test"])));
}

#[test]
fn update_keeps_block_position() {
    let mut doc = HostsFileStructure::new();
    doc.add_or_update_subscription("http://a.test", "1.1.1.1 a\n", 1);
    doc.add_or_update_subscription("http://b.test", "2.2.2.2 b\n", 1);
    doc.add_or_update_subscription("http://a.test", "3.3.3.3 a\n", 2);
    assert_eq!(doc.get_all_subscriptions(), vec!["http://a.test", "http://b.test"]);
}

#[test]
fn remove_reports_whether_block_existed() {
    let mut doc = HostsFileStructure::new();
    doc.add_or_update_subscription(URL, "1.1.1.1 a\n", 1);
    assert!(!doc.remove_subscription("https://missing.test"));
    assert!(doc.remove_subscription(URL));
    assert!(doc.get_all_subscriptions().is_empty());
    assert!(!doc.remove_subscription(URL));
}

#[test]
fn separator_only_after_non_blank_line() {
    let mut doc = HostsFileStructure::parse("a\n\n");
    assert_eq!(doc.other_content(), vec!["a", ""]);
    doc.add_or_update_subscription(URL, "1.1.1.1 a\n", 5);
    let text = doc.reconstruct();
    assert_eq!(text, format!("a\n\n{}", block(URL, 5, &["1.1.1.1 a"]).join("\n")));
}

#[test]
fn empty_text_is_empty_document() {
    let doc = HostsFileStructure::parse("");
    assert!(doc.other_content().is_empty());
    assert_eq!(doc.reconstruct(), "");
}

#[test]
fn subscriptions_listed_from_text() {
    let text = format!(
        "x\n{}\n{}",
        block("http://one.test", 1, &[]).join("\n"),
        block("http://two.test", 1, &[]).join("\n")
    );
    assert_eq!(get_all_subscriptions(&text), vec!["http://one.test", "http://two.test"]);
}

#[test]
fn orphan_end_marker_after_closed_block_is_free() {
    let orphan = "# === 结束 xdev hosts subscription: https://gone.test ===";
    let b = block(URL, 1, &["1.1.1.1 a"]).join("\n");
    let text = format!("{b}\n{orphan}\n");
    let doc = HostsFileStructure::parse(&text);
    assert_eq!(doc.other_content(), vec![orphan]);
    assert_eq!(doc.get_all_subscriptions(), vec![URL.to_string()]);
    assert_eq!(doc.reconstruct(), format!("{orphan}\n\n{b}"));
}
