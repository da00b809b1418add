use supportfile_pii_anonymizer::ip::{ipv4_network, ipv6_network, subnet_letters};
use supportfile_pii_anonymizer::recognizers::archive_root::first_host_in;
use supportfile_pii_anonymizer::json::is_skip_key;
use supportfile_pii_anonymizer::recognizers::ip::{preceded_by_version_word, split_prefix, split_zone, Ipv4Recognizer};
use supportfile_pii_anonymizer::recognizers::mac::MacRecognizer;
use supportfile_pii_anonymizer::recognizers::Recognizer;
use supportfile_pii_anonymizer::strategy::{ip_token, is_guid, lettered_token, mac_token, SECRET_TOKEN};
use supportfile_pii_anonymizer::{
    extract_archive_hostname, Anonymizer, Config, EntityType, JsonValue, RecognizerResult,
};

fn anon() -> Anonymizer {
    Anonymizer::new(Config::default())
}

fn v4(a: u8, b: u8, c: u8, d: u8) -> u32 {
    u32::from_be_bytes([a, b, c, d])
}

#[test]
fn tokens_are_spelled_exactly() {
    assert_eq!(ip_token("IPv4", "A", 1, None), "[[IPv4|net-A|h1]]");
    assert_eq!(ip_token("IPv6", "AB", 12, Some(64)), "[[IPv6|net-AB|h12]]/64");
    assert_eq!(mac_token("00:0d:3a", 7), "[[MAC|00:0d:3a|dev7]]");
    assert_eq!(lettered_token("GUID", "B"), "[[GUID-B]]");
    assert_eq!(SECRET_TOKEN, "[[SECRET]]");
}

#[test]
fn letters_are_bijective_base_26() {
    assert_eq!(subnet_letters(1), "B");
    assert_eq!(subnet_letters(27), "AB");
    assert_eq!(subnet_letters(51), "AZ");
    assert_eq!(subnet_letters(52), "BA");
    assert_eq!(subnet_letters(701), "ZZ");
    assert_eq!(subnet_letters(702), "AAA");
}

#[test]
fn ipv6_network_masks_low_bits() {
    let a: u128 = 0xfe80_0000_0000_0000_01ff_fe23_4567_890a;
    assert_eq!(ipv6_network(a, 64), 0xfe80_0000_0000_0000_0000_0000_0000_0000);
    assert_eq!(ipv6_network(a, 128), a);
    assert_eq!(ipv6_network(a, 200), a);
    assert_eq!(ipv6_network(a, 0), 0);
}

#[test]
fn guid_shape_is_checked_on_the_whole_string() {
    assert!(is_guid("3f2504e0-4f89-41d3-9a0c-0305e82c3301"));
    assert!(is_guid("3F2504E0-4F89-41D3-9A0C-0305E82C3301"));
    assert!(!is_guid("3f2504e0-4f89-41d3-9a0c-0305e82c330"));
    assert!(!is_guid("x3f2504e0-4f89-41d3-9a0c-0305e82c3301"));
    assert!(!is_guid("rg-sap"));
}

#[test]
fn same_value_keeps_its_token_across_calls() {
    let mut a = anon();
    let first = a.scrub_text("peer db01.cluster.local at 10.1.2.34 id 3f2504e0-4f89-41d3-9a0c-0305e82c3301");
    let _ = a.scrub_text("other web.contoso.com at 10.9.9.9 mail ops@contoso.com");
    let again = a.scrub_text("peer db01.cluster.local at 10.1.2.34 id 3f2504e0-4f89-41d3-9a0c-0305e82c3301");
    assert_eq!(first, again);
    assert_eq!(first, "peer [[HOST-A]] at [[IPv4|net-A|h1]] id [[GUID-A]]");
}

#[test]
fn case_variants_of_a_value_share_its_token() {
    let mut a = anon();
    let out = a.scrub_text("3F2504E0-4F89-41D3-9A0C-0305E82C3301 3f2504e0-4f89-41d3-9a0c-0305e82c3301");
    assert_eq!(out, "[[GUID-A]] [[GUID-A]]");
}

#[test]
fn distinct_values_get_distinct_tokens() {
    let mut a = anon();
    let out = a.scrub_text("a@contoso.com b@contoso.com a@contoso.com");
    assert_eq!(out, "[[EMAIL-A]] [[EMAIL-B]] [[EMAIL-A]]");
}

#[test]
fn subnets_and_hosts_are_numbered_in_order() {
    let mut a = anon();
    let out = a.scrub_text("10.1.2.34 10.1.3.34 10.1.2.35 10.1.2.34");
    assert_eq!(
        out,
        "[[IPv4|net-A|h1]] [[IPv4|net-B|h1]] [[IPv4|net-A|h2]] [[IPv4|net-A|h1]]"
    );
}

#[test]
fn default_prefix_is_configurable() {
    let mut a = Anonymizer::new(Config::default().ipv4_default_prefix(16));
    let out = a.scrub_text("10.1.2.34 10.1.3.34");
    assert_eq!(out, "[[IPv4|net-A|h1]] [[IPv4|net-A|h2]]");
}

#[test]
fn explicit_prefix_is_remembered_for_bare_occurrences() {
    let mut a = anon();
    let out = a.scrub_text("10.5.0.10/16 then 10.5.0.10");
    assert_eq!(out, "[[IPv4|net-A|h1]]/16 then [[IPv4|net-A|h1]]");
}

#[test]
fn extra_allowlisted_address_is_kept() {
    let mut a = Anonymizer::new(Config::default().allow_ipv4(v4(10, 0, 0, 1)));
    let out = a.scrub_text("gw 10.0.0.1 host 10.0.0.2");
    assert_eq!(out, "gw 10.0.0.1 host [[IPv4|net-A|h1]]");
}

#[test]
fn ipv6_prefix_and_zone() {
    let mut a = anon();
    let out = a.scrub_text("net 2001:db8::1/48 link fe80::1%eth0");
    assert_eq!(out, "net [[IPv6|net-A|h1]]/48 link [[IPv6|net-B|h1]]");
}

#[test]
fn hyphenated_mac_keeps_oui() {
    let mut a = anon();
    let out = a.scrub_text("nic 00-0D-3A-1B-2C-3D and 00-0d-3a-1b-2c-3e");
    assert_eq!(out, "nic [[MAC|00-0D-3A|dev1]] and [[MAC|00-0d-3a|dev2]]");
}

#[test]
fn secrets_are_always_fully_redacted() {
    let mut a = anon();
    let out = a.scrub_text("password=hunter2 password=other");
    assert_eq!(out, "password=[[SECRET]] password=[[SECRET]]");
}

#[test]
fn text_without_findings_is_unchanged() {
    let mut a = anon();
    let t = "nothing to see here: just words, 42 and 7.";
    assert_eq!(a.scrub_text(t), t);
    assert_eq!(a.scrub_text(""), "");
}

#[test]
fn scrub_spans_replaces_given_spans_and_resolves_overlaps() {
    let mut a = anon();
    let text = "ab 10.0.0.1 cd";
    let out = a.scrub_spans(text, vec![RecognizerResult::new(3, 11, EntityType::Ipv4, 90)]);
    assert_eq!(out, "ab [[IPv4|net-A|h1]] cd");

    let text = "x jane@corp.com y";
    let spans = vec![
        RecognizerResult::new(7, 15, EntityType::Hostname, 50),
        RecognizerResult::new(2, 15, EntityType::Email, 85),
    ];
    assert_eq!(a.scrub_spans(text, spans), "x [[EMAIL-A]] y");

    // Same start and length: the higher score wins.
    let spans = vec![
        RecognizerResult::new(0, 6, EntityType::Hostname, 50),
        RecognizerResult::new(0, 6, EntityType::Secret, 95),
    ];
    assert_eq!(a.scrub_spans("abcdef!", spans), "[[SECRET]]!");
    assert_eq!(a.scrub_spans("plain", Vec::new()), "plain");
}

#[test]
fn known_hosts_are_trimmed_lowercased_and_escaped() {
    let mut a = anon();
    a.add_known_hostname("  My.Host  ");
    let out = a.scrub_text("MY.HOST up, myxhost down");
    assert_eq!(out, "[[HOST-A]] up, myxhost down");
}

#[test]
fn known_hosts_escape_every_meta_character() {
    let mut a = anon();
    a.add_known_hostname("db+1");
    let out = a.scrub_text("dbb1 db+1 db1");
    assert_eq!(out, "dbb1 [[HOST-A]] db1");
}

#[test]
fn recognizer_reports_come_in_order() {
    let r = Ipv4Recognizer::new().recognize("10.0.0.1 and 10.0.0.2, 10.0.0.3");
    assert_eq!(r.len(), 3);
    assert!(r.windows(2).all(|w| w[0].end <= w[1].start));
}

#[test]
fn known_hosts_prefer_the_longest_name() {
    let mut a = anon();
    a.add_known_hostname("node");
    a.add_known_hostname("node-1x");
    a.add_known_hostname("node");
    let out = a.scrub_text("node-1x node");
    assert_eq!(out, "[[HOST-A]] [[HOST-B]]");
}

#[test]
fn trivial_known_hosts_are_ignored() {
    let mut a = anon();
    a.add_known_hostname("localhost");
    a.add_known_hostname("LOCALHOST ");
    a.add_known_hostname("x");
    a.add_known_hostname("12345");
    a.add_known_hostname("   ");
    let t = "localhost x port 12345";
    assert_eq!(a.scrub_text(t), t);
}

#[test]
fn hint_cidr_ignores_garbage_and_caps_the_prefix() {
    let mut a = anon();
    a.hint_cidr("not-an-ip", 8);
    a.hint_cidr("10.7.0.1", 99);
    a.hint_cidr("fe80::1", 200);
    let out = a.scrub_text("10.7.0.1 10.7.0.2 fe80::1");
    assert_eq!(out, "[[IPv4|net-A|h1]] [[IPv4|net-B|h1]] [[IPv6|net-C|h1]]");
}

#[test]
fn version_words_keep_dotted_numbers() {
    let mut a = anon();
    let t = "kernel release 5.14.0.1 and Version: 1.2.3.4";
    assert_eq!(a.scrub_text(t), t);
    assert!(preceded_by_version_word("version 1.2.3.4", 8));
    assert!(!preceded_by_version_word("host 1.2.3.4", 5));
}

#[test]
fn prefix_and_zone_are_split_off() {
    assert_eq!(split_prefix("10.1.2.3/24"), ("10.1.2.3", Some(24)));
    assert_eq!(split_prefix("10.1.2.3"), ("10.1.2.3", None));
    assert_eq!(split_prefix("10.1.2.3/x"), ("10.1.2.3", None));
    assert_eq!(split_prefix("a/b/300"), ("a/b", None));
    assert_eq!(split_zone("fe80::1%eth0"), "fe80::1");
    assert_eq!(split_zone("fe80::1"), "fe80::1");
}

#[test]
fn skip_keys_are_matched_by_suffix_ignoring_case() {
    assert!(is_skip_key("version"));
    assert!(is_skip_key("agentVersion"));
    assert!(is_skip_key("KERNEL_VERSION"));
    assert!(is_skip_key("osRelease"));
    assert!(!is_skip_key("conversionHost"));
    assert!(is_skip_key("versions"));
    assert!(!is_skip_key("osReleases"));
    assert!(!is_skip_key("versionsHost"));
    assert!(!is_skip_key(""));
}

#[test]
fn json_arrays_inherit_their_key_and_keep_their_shape() {
    let mut a = anon();
    let mut v = JsonValue::Object(vec![
        (
            "osVersion".to_string(),
            JsonValue::Array(vec![JsonValue::String("1.2.3.4".to_string()), JsonValue::Null]),
        ),
        ("conversionHost".to_string(), JsonValue::String("10.0.0.9".to_string())),
        ("ok".to_string(), JsonValue::Bool(true)),
    ]);
    a.scrub_json(&mut v);
    match &v {
        JsonValue::Object(m) => {
            assert_eq!(m.len(), 3);
            assert_eq!(m[0].0, "osVersion");
            match &m[0].1 {
                JsonValue::Array(items) => {
                    assert_eq!(items.len(), 2);
                    assert!(matches!(&items[0], JsonValue::String(s) if s == "1.2.3.4"));
                    assert!(matches!(&items[1], JsonValue::Null));
                },
                _ => panic!("array expected"),
            }
            assert!(matches!(&m[1].1, JsonValue::String(s) if s == "[[IPv4|net-A|h1]]"));
            assert!(matches!(&m[2].1, JsonValue::Bool(true)));
        },
        _ => panic!("object expected"),
    }
}

#[test]
fn version_lists_are_skipped_element_by_element() {
    let mut a = anon();
    let mut v = JsonValue::Object(vec![(
        "versions".to_string(),
        JsonValue::Array(vec![JsonValue::String("1.2.3.4".to_string())]),
    )]);
    a.scrub_json(&mut v);
    match &v {
        JsonValue::Object(m) => match &m[0].1 {
            JsonValue::Array(items) => {
                assert!(matches!(&items[0], JsonValue::String(s) if s == "1.2.3.4"))
            },
            _ => panic!("array expected"),
        },
        _ => panic!("object expected"),
    }
}

#[test]
fn out_of_range_octets_are_not_addresses() {
    assert!(Ipv4Recognizer::new().recognize("v 300.1.2.3").is_empty());
    let mut a = anon();
    assert_eq!(a.scrub_text("v 300.1.2.3"), "v 300.1.2.3");
}

#[test]
fn recognizers_report_byte_ranges() {
    let r = Ipv4Recognizer::new().recognize("a 10.0.0.1 b");
    assert_eq!(r, vec![RecognizerResult::new(2, 10, EntityType::Ipv4, 90)]);
    let r = MacRecognizer::new().recognize("00:0d:3a:1b:2c:3d");
    assert_eq!(r.len(), 1);
    assert_eq!((r[0].start, r[0].end, r[0].entity), (0, 17, EntityType::Mac));
    assert_eq!(r[0].span_len(), 17);
}

#[test]
fn first_host_is_taken_from_the_first_capture() {
    let s = "scc_db01_240101_1200 scc_db02_240101_1200";
    assert_eq!(first_host_in(Some(vec![Some((4, 8)), Some((25, 29))]), s).as_deref(), Some("db01"));
    assert_eq!(first_host_in(Some(vec![Some((4, 5)), Some((25, 29))]), s), None);
    assert_eq!(first_host_in(Some(vec![None]), s), None);
    assert_eq!(first_host_in(Some(Vec::new()), s), None);
    assert_eq!(first_host_in(None, s), None);
}

#[test]
fn coarser_networks_compose() {
    let a = u32::from_be_bytes([10, 1, 2, 34]);
    assert_eq!(ipv4_network(ipv4_network(a, 24), 16), ipv4_network(a, 16));
    assert_eq!(ipv4_network(a, 16), u32::from_be_bytes([10, 1, 0, 0]));
    let b: u128 = 0x2001_0db8_1234_5678_9abc_def0_1234_5678;
    assert_eq!(ipv6_network(ipv6_network(b, 64), 48), ipv6_network(b, 48));
}

#[test]
fn labels_decode_back_to_their_index() {
    for n in [0usize, 1, 25, 26, 27, 51, 52, 675, 701, 702, 18277, 18278] {
        let v = subnet_letters(n).bytes().fold(0usize, |acc, c| acc * 26 + (c - b'A' + 1) as usize);
        assert_eq!(v, n + 1);
    }
}

#[test]
fn entity_labels() {
    assert_eq!(EntityType::Ipv4.label(), "IPv4");
    assert_eq!(EntityType::Hostname.label(), "HOST");
    assert_eq!(EntityType::AzureResourceId.label(), "AZURE_ID");
    assert_eq!(EntityType::Secret.label(), "SECRET");
}

#[test]
fn archive_names_without_a_date_are_not_hosts() {
    assert_eq!(extract_archive_hostname("sosreport-only"), None);
    assert_eq!(extract_archive_hostname("plain/path"), None);
    assert_eq!(
        extract_archive_hostname("/var/tmp/scc_node7_250101_0900.txz").as_deref(),
        Some("node7")
    );
}

#[test]
fn readme_example() {
    let mut a = anon();
    let out = a.scrub_text("node at 10.1.2.34 and 10.1.2.99 talk to 127.0.0.1");
    assert!(out.contains("127.0.0.1"));
    assert!(!out.contains("10.1.2.34"));
    assert_eq!(out, "node at [[IPv4|net-A|h1]] and [[IPv4|net-A|h2]] talk to 127.0.0.1");
}
