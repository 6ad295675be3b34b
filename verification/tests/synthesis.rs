use hed2::model::{Host, Item, Line};
use hed2::{
    hosts_chunk, is_ip, lines_to_list, lines_to_text, list_to_lines, list_to_text, text_to_lines,
    update_text_by_list,
};

fn host(content: &str, enabled: bool) -> Host {
    Host { content: content.to_string(), enabled }
}

#[test]
fn ip_validation() {
    assert!(is_ip("127.0.0.1"));
    assert!(is_ip("0.0.0.0"));
    assert!(is_ip("255.255.255.255"));
    assert!(!is_ip("256.0.0.1"));
    assert!(!is_ip("01.2.3.4"));
    assert!(!is_ip("1.2.3"));
    assert!(!is_ip("1.2.3.4.5"));
    assert!(!is_ip("1.2.3.4 "));
    assert!(!is_ip(""));
    assert!(!is_ip("a.b.c.d"));
    assert!(is_ip("::"));
    assert!(is_ip("::1"));
    assert!(is_ip("1::"));
    assert!(is_ip("2001:db8::8a2e:370:7334"));
    assert!(is_ip("1:2:3:4:5:6:7:8"));
    assert!(is_ip("1:2:3:4:5:6:7::"));
    assert!(is_ip("::ffff:192.0.2.1"));
    assert!(is_ip("1:2:3:4:5:6:192.0.2.1"));
    assert!(!is_ip("1:2:3:4:5:6:7:8:9"));
    assert!(!is_ip("1::2::3"));
    assert!(!is_ip(":::"));
    assert!(!is_ip("1:2:3:4:5:6:7"));
    assert!(!is_ip("12345::"));
    assert!(!is_ip("g::1"));
    assert!(!is_ip("1:2:3:4:5:6:7:1.2.3.4"));
    assert!(is_ip("ABCD:ef01::1"));
}

#[test]
fn chunking_splits_at_ten_and_separates_flags() {
    let mut hosts: Vec<Host> = Vec::new();
    for i in 0..12 {
        hosts.push(host(&format!("h{}.test", i), true));
    }
    hosts.push(host("off.test", false));
    let lines = hosts_chunk(hosts, "1.1.1.1");
    assert_eq!(lines.len(), 3);
    match &lines[0] {
        Line::Valid { ip, hosts, enabled } => {
            assert_eq!(ip, "1.1.1.1");
            assert_eq!(hosts.len(), 10);
            assert_eq!(hosts[0], "h0.test");
            assert_eq!(hosts[9], "h9.test");
            assert!(*enabled);
        },
        _ => panic!("expected an entry line"),
    }
    match &lines[1] {
        Line::Valid { hosts, enabled, .. } => {
            assert_eq!(hosts, &vec!["h10.test".to_string(), "h11.test".to_string()]);
            assert!(*enabled);
        },
        _ => panic!("expected an entry line"),
    }
    match &lines[2] {
        Line::Valid { hosts, enabled, .. } => {
            assert_eq!(hosts, &vec!["off.test".to_string()]);
            assert!(!*enabled);
        },
        _ => panic!("expected an entry line"),
    }
}

#[test]
fn removing_an_ip_leaves_a_collapsed_blank() {
    let text = "1.1.1.1 a.com\n2.2.2.2 b.com\n\n3.3.3.3 c.com\n";
    let lines = text_to_lines(text);
    let list = lines_to_list(&lines, None);
    let kept: Vec<Item> = list.into_iter().filter(|it| it.ip != "2.2.2.2").collect();
    let out = list_to_text(kept, text.to_string());
    assert_eq!(out, "1.1.1.1 a.com\n\n3.3.3.3 c.com\n");
}

#[test]
fn render_then_parse_is_stable() {
    let text = "# note\r\n\r\n\r\n1.1.1.1 a.com\r\nbad line\r\n";
    let lines = text_to_lines(text);
    let once = lines_to_text(&lines, false);
    assert_eq!(once, "# note\n\n1.1.1.1 a.com\nbad line\n");
    let twice = lines_to_text(&text_to_lines(&once), false);
    assert_eq!(once, twice);
}

#[test]
fn no_op_edit_reproduces_normalized_text() {
    let text = "1.1.1.1 a.com b.com\n# note\n# 2.2.2.2 c.com\n";
    let lines = text_to_lines(text);
    let items = lines_to_list(&lines, None);
    let edited = update_text_by_list(items, text.to_string());
    let normalized = lines_to_text(&lines, false);
    assert_eq!(edited, normalized);
}

#[test]
fn new_ip_and_new_group_are_appended() {
    let text = "# header\n";
    let list = vec![
        Item {
            ip: "5.5.5.5".to_string(),
            hosts: vec![host("five.test", true)],
            group: "System".to_string(),
        },
        Item {
            ip: "6.6.6.6".to_string(),
            hosts: vec![host("six.test", false)],
            group: "new".to_string(),
        },
    ];
    let out = list_to_text(list, text.to_string());
    assert_eq!(out, "# header\n5.5.5.5 five.test\n\n#[new]\n# 6.6.6.6 six.test\n#[new]\n");
}

#[test]
fn group_body_is_regenerated_inside_its_delimiters() {
    let text = "#[g]\n1.1.1.1 a.test\n# filler\n#[g]\n";
    let lines = text_to_lines(text);
    let mut list = lines_to_list(&lines, None);
    assert_eq!(list.len(), 1);
    list[0].hosts.push(host("b.test", true));
    let out = list_to_text(list, text.to_string());
    // the body's opaque line moves out in front of the regenerated block
    assert_eq!(out, "# filler\n#[g]\n1.1.1.1 a.test b.test\n#[g]\n");
}

#[test]
fn windows_mode_joins_with_crlf() {
    let lines = text_to_lines("1.1.1.1 a.com\n\n2.2.2.2 b.com\n");
    let out = lines_to_text(&lines, true);
    assert_eq!(out, "1.1.1.1 a.com\r\n\r\n2.2.2.2 b.com\r\n");
}

#[test]
fn empty_input_renders_empty() {
    let lines = text_to_lines("");
    assert_eq!(lines.len(), 0);
    assert_eq!(lines_to_text(&lines, false), "");
    let list = lines_to_list(&lines, None);
    assert_eq!(list.len(), 0);
}

#[test]
fn leading_blank_run_collapses_to_one() {
    let lines = text_to_lines("\n\n1.1.1.1 a.com\n");
    assert_eq!(lines_to_text(&lines, false), "\n1.1.1.1 a.com\n");
}

#[test]
fn missing_final_line_break_is_normalized() {
    let lines = text_to_lines("1.1.1.1 a.com");
    assert_eq!(lines.len(), 1);
    assert_eq!(lines_to_text(&lines, false), "1.1.1.1 a.com\n");
}

#[test]
fn hex_groups_allow_leading_zeros_octets_do_not() {
    assert!(is_ip("0001:0:0:0:0:0:0:1"));
    assert!(is_ip("::0000"));
    assert!(!is_ip("1.2.3.04"));
}

#[test]
fn command_layer_wraps_the_core() {
    assert!(hed2::command::is_ip("10.0.0.1".to_string()));
    assert!(!hed2::command::is_ip("10.0.0".to_string()));
    let text = "3.3.3.3 c.com\n";
    let lines = text_to_lines(text);
    let items = lines_to_list(&lines, None);
    assert_eq!(update_text_by_list(items, text.to_string()), "3.3.3.3 c.com\n");
}

#[test]
fn items_with_emptied_host_lists_blank_their_lines() {
    let text = "1.1.1.1 a.com\n";
    let lines = text_to_lines(text);
    let mut list = lines_to_list(&lines, None);
    list[0].hosts.clear();
    let out = list_to_text(list, text.to_string());
    assert_eq!(out, "");
}
