use xdev::backup::{
    backup_filename_for, backup_name_time, backups_newest_first, generate_backup_filename,
    select_latest_backup,
};
use xdev::report::{content_preview, entry_addresses, shorten_for_display, sync_statuses};
use xdev::config::Config;
use xdev::error::XdevError;
use xdev::globals::{get_language_display_name, get_supported_languages, validate_language};
use xdev::operations::check_hosts_content;
use xdev::table::{TableStyle, TableTheme};
use xdev::text::{chars_of, decimal_chars, parse_u64, split_lines, string_of, trim_chars};
use xdev::validation::{is_valid_domain_simple, validate_url};

#[test]
fn url_errors() {
    assert_eq!(validate_url("   "), Err(XdevError::UrlEmpty));
    assert_eq!(validate_url("ftp://x.test"), Err(XdevError::UrlInvalidProtocol));
    assert_eq!(validate_url("https://"), Err(XdevError::UrlMissingDomain));
    assert_eq!(validate_url("http:///path"), Err(XdevError::UrlInvalidDomain));
    assert_eq!(validate_url("https://:8080/x"), Err(XdevError::UrlInvalidDomain));
    assert_eq!(
        validate_url("https://bad_host.test/x"),
        Err(XdevError::UrlInvalidDomainFormat("bad_host.test".to_string()))
    );
    assert_eq!(
        validate_url("https://nodot/x"),
        Err(XdevError::UrlInvalidDomainFormat("nodot".to_string()))
    );
    assert_eq!(
        validate_url("https://.lead.test"),
        Err(XdevError::UrlInvalidDomainFormat(".lead.test".to_string()))
    );
}

#[test]
fn urls_accepted() {
    assert_eq!(validate_url("  https://example.com/hosts  "), Ok(()));
    assert_eq!(validate_url("http://localhost:8080/list"), Ok(()));
    assert_eq!(validate_url("http://127.0.0.1/hosts"), Ok(()));
    assert_eq!(validate_url("https://例子.测试/hosts"), Ok(()));
}

#[test]
fn domain_length_counts_bytes() {
    let long = format!("{}.com", "a".repeat(249));
    assert!(is_valid_domain_simple(&long));
    let longer = format!("{}.com", "a".repeat(250));
    assert!(!is_valid_domain_simple(&longer));
    let wide = format!("{}.com", "例".repeat(83));
    assert!(is_valid_domain_simple(&wide));
    let wider = format!("{}.com", "例".repeat(84));
    assert!(!is_valid_domain_simple(&wider));
}

#[test]
fn backup_names() {
    assert_eq!(backup_filename_for(1700000000), "hosts_backup_1700000000.txt");
    assert_eq!(backup_filename_for(0), "hosts_backup_0.txt");
    let g = generate_backup_filename();
    assert!(g.starts_with("hosts_backup_") && g.ends_with(".txt"));
    assert!(backup_name_time(&g).unwrap() > 1_600_000_000);
    assert_eq!(backup_name_time("hosts_backup_+12.txt"), Some(12));
    assert_eq!(backup_name_time("hosts_backup_abc.txt"), Some(0));
    assert_eq!(backup_name_time("hosts_backup_18446744073709551616.txt"), Some(0));
    assert_eq!(backup_name_time("other.txt"), None);
}

#[test]
fn latest_backup_selection() {
    let names: Vec<String> = ["notes.md", "hosts_backup_20.txt", "hosts_backup_300.txt", "hosts_backup_100.txt"]
        .iter()
        .map(|s| s.to_string())
        .collect();
    assert_eq!(select_latest_backup(&names), Ok("hosts_backup_300.txt".to_string()));
    let ties: Vec<String> = ["hosts_backup_x.txt", "hosts_backup_0.txt"].iter().map(|s| s.to_string()).collect();
    assert_eq!(select_latest_backup(&ties), Ok("hosts_backup_0.txt".to_string()));
    assert_eq!(select_latest_backup(&vec!["a".to_string()]), Err(XdevError::BackupNotFound));
    assert_eq!(select_latest_backup(&Vec::new()), Err(XdevError::BackupNotFound));
}

#[test]
fn config_fields() {
    let mut c = Config::default();
    assert_eq!(c.draft_path, "/tmp/zdocs");
    assert_eq!(c.lang, "zh-Hans");
    assert_eq!(c.set_field("draft_path", "/data/d"), Ok(()));
    assert_eq!(c.get_field("draft_path"), Ok("/data/d".to_string()));
    assert_eq!(c.set_field("lang", "en"), Ok(()));
    assert_eq!(c.get_field("lang"), Ok("en".to_string()));
    assert_eq!(c.set_field("lang", "fr"), Err(XdevError::UnsupportedLanguage("fr".to_string())));
    assert_eq!(c.lang, "en");
    assert_eq!(c.set_field("color", "red"), Err(XdevError::UnknownField("color".to_string())));
    assert_eq!(c.get_field("color"), Err(XdevError::UnknownField("color".to_string())));
    assert_eq!(c.get_field("hosts_subscriptions"), Ok("[]".to_string()));
}

#[test]
fn registry_add_and_remove() {
    let mut c = Config { draft_path: String::new(), lang: "en".to_string(), hosts_subscriptions: None };
    assert!(c.get_hosts_subscriptions().is_empty());
    assert_eq!(c.add_hosts_subscription("http://a.test"), Ok(true));
    assert_eq!(c.add_hosts_subscription("http://b.test"), Ok(true));
    assert_eq!(c.add_hosts_subscription("http://a.test"), Ok(false));
    assert_eq!(c.get_hosts_subscriptions(), vec!["http://a.test", "http://b.test"]);
    assert_eq!(c.get_field("hosts_subscriptions"), Ok("[\"http://a.test\", \"http://b.test\"]".to_string()));
    assert_eq!(c.remove_hosts_subscription("http://a.test"), Ok(true));
    assert_eq!(c.remove_hosts_subscription("http://a.test"), Ok(false));
    assert_eq!(c.get_hosts_subscriptions(), vec!["http://b.test"]);
}

#[test]
fn languages() {
    assert!(validate_language("zh-Hans"));
    assert!(validate_language("en"));
    assert!(!validate_language("EN"));
    assert_eq!(get_language_display_name("zh-Hans"), "简体中文");
    assert_eq!(get_language_display_name("en"), "English");
    assert_eq!(get_language_display_name("de"), "Unknown");
    assert_eq!(get_supported_languages(), vec!["zh-Hans", "en"]);
}

#[test]
fn hosts_content_checks() {
    assert_eq!(check_hosts_content(""), Err(XdevError::HostsContentEmpty));
    assert_eq!(check_hosts_content("# only\n\n   \n"), Err(XdevError::HostsContentInvalid));
    assert_eq!(check_hosts_content("# h\n1.1.1.1 a\n\n2.2.2.2 b\n"), Ok(2));
}

#[test]
fn text_primitives() {
    assert_eq!(string_of(&chars_of("héllo")), "héllo");
    assert_eq!(string_of(&trim_chars(&chars_of("\u{3000} a b \t\n"))), "a b");
    assert_eq!(split_lines(&chars_of("a\r\nb\n\nc\r")), vec!["a", "b", "", "c\r"]);
    assert_eq!(split_lines(&chars_of("a\n")), vec!["a"]);
    assert_eq!(string_of(&decimal_chars(9070)), "9070");
    assert_eq!(parse_u64(&chars_of("18446744073709551615")), Some(u64::MAX));
    assert_eq!(parse_u64(&chars_of("+")), None);
    assert_eq!(parse_u64(&chars_of("-1")), None);
}

#[test]
fn default_table_style() {
    let s = TableStyle::default();
    assert_eq!(s.theme, TableTheme::Default);
    assert_eq!(s.max_width, None);
}

#[test]
fn backups_listed_newest_first() {
    let names: Vec<String> = ["hosts_backup_5.txt", "x", "hosts_backup_9.txt", "hosts_backup_1.txt"]
        .iter()
        .map(|s| s.to_string())
        .collect();
    assert_eq!(
        backups_newest_first(&names),
        vec![
            ("hosts_backup_9.txt".to_string(), 9),
            ("hosts_backup_5.txt".to_string(), 5),
            ("hosts_backup_1.txt".to_string(), 1)
        ]
    );
    assert!(backups_newest_first(&vec!["y".to_string()]).is_empty());
}

#[test]
fn preview_of_content() {
    let long = "9".repeat(70);
    let content = format!("# c\n1.1.1.1 a\n\n{long}\n2 b\n3 c\n4 d\n5 e\n6 f\n7 g\n8 h\n9 i\n");
    let p = content_preview(&content);
    assert_eq!(p.total_lines, 12);
    assert_eq!(p.valid_entries, 10);
    assert_eq!(p.shown.len(), 8);
    assert_eq!(p.shown[0], "1.1.1.1 a");
    assert_eq!(p.shown[1], format!("{}...", "9".repeat(57)));
    assert_eq!(p.shown[7], "7 g");
}

#[test]
fn shortening_keeps_whole_characters() {
    assert_eq!(shorten_for_display("short", 10, 7), "short");
    assert_eq!(shorten_for_display("abcdefghijk", 10, 7), "abcdefg...");
    assert_eq!(shorten_for_display("ééééééé", 10, 7), "ééé...");
}

#[test]
fn statuses_of_registered_urls() {
    let reg = vec!["a".to_string(), "b".to_string(), "c".to_string()];
    let in_file = vec!["c".to_string(), "a".to_string()];
    assert_eq!(sync_statuses(&reg, &in_file), vec![true, false, true]);
}

#[test]
fn addresses_of_entries() {
    let r = entry_addresses("# x\n1.2.3.4  host.a\nlonely\n  ::1\tlocalhost  \n");
    assert_eq!(r, vec![Some("1.2.3.4".to_string()), None, Some("::1".to_string())]);
}
