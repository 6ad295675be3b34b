use hed2::model::{Host, Item, Line};
use hed2::{lines_to_list, lines_to_text, list_to_lines, text_to_groups, text_to_lines};

fn host(content: &str, enabled: bool) -> Host {
    Host { content: content.to_string(), enabled }
}

#[test]
fn test_parser() {
    let mock_hosts = "# comment line\n1.1.1.1 a.com b.com\n1.1.1.1 a.com x.com\n\n#[foo]\n3.3.3.3 c.com\n#[foo]\n2.2.2.2 d.com\n";

    let lines = text_to_lines(mock_hosts);
    assert_eq!(lines.len(), 8);
    assert!(matches!(&lines[0], Line::Other(s) if s == "# comment line"));
    assert!(matches!(&lines[1], Line::Valid { ip, hosts, enabled: true }
        if ip == "1.1.1.1" && hosts == &vec!["a.com".to_string(), "b.com".to_string()]));
    assert!(matches!(&lines[3], Line::Empty));
    assert!(matches!(&lines[4], Line::Group(g) if g == "foo"));

    let mut list = lines_to_list(&lines, None);
    assert_eq!(list.len(), 3);
    // merged across the two 1.1.1.1 lines, duplicates dropped
    assert_eq!(list[0].ip, "1.1.1.1");
    assert_eq!(list[0].group, "System");
    let names: Vec<&str> = list[0].hosts.iter().map(|h| h.content.as_str()).collect();
    assert_eq!(names, vec!["a.com", "b.com", "x.com"]);
    assert_eq!(list[1].ip, "3.3.3.3");
    assert_eq!(list[1].group, "foo");
    assert_eq!(list[2].ip, "2.2.2.2");
    assert_eq!(list[2].group, "System");

    // edit: swap the last host of 1.1.1.1, extend the foo group, add a group
    for item in &mut list {
        if item.ip == "1.1.1.1" {
            item.hosts.pop();
            item.hosts.push(host("o.com", true));
            item.hosts.push(host("13.com", false));
        } else if item.ip == "3.3.3.3" && item.group == "foo" {
            item.hosts.push(host("e.com", true));
        }
    }
    list.push(Item {
        ip: "4.4.4.4".to_string(),
        hosts: vec![host("foo.com", true), host("bar.com", false)],
        group: "Another Group".to_string(),
    });

    let new_lines = list_to_lines(list.clone(), lines.clone());
    let text = lines_to_text(&new_lines, false);
    assert_eq!(
        text,
        "# comment line\n1.1.1.1 a.com b.com o.com\n# 1.1.1.1 13.com\n\n#[foo]\n3.3.3.3 c.com e.com\n#[foo]\n2.2.2.2 d.com\n\n#[Another Group]\n4.4.4.4 foo.com\n# 4.4.4.4 bar.com\n#[Another Group]\n"
    );

    let groups = text_to_groups(mock_hosts.to_string());
    assert_eq!(groups.len(), 2);
    assert_eq!(groups[0].name, "System");
    assert_eq!(groups[0].text, mock_hosts);
    assert_eq!(groups[0].list.len(), 3);
    assert_eq!(groups[1].name, "foo");
    assert_eq!(groups[1].text, "3.3.3.3 c.com");
    assert_eq!(groups[1].list.len(), 1);
    assert_eq!(groups[1].list[0].ip, "3.3.3.3");
}

#[test]
fn enabled_and_disabled_lines_merge_into_one_item() {
    let lines = text_to_lines("127.0.0.1 a.com b.com\n# 127.0.0.1 c.com\n");
    let list = lines_to_list(&lines, None);
    assert_eq!(list.len(), 1);
    assert_eq!(list[0].ip, "127.0.0.1");
    assert_eq!(list[0].group, "System");
    assert_eq!(list[0].hosts.len(), 3);
    assert_eq!(list[0].hosts[0].content, "a.com");
    assert!(list[0].hosts[0].enabled);
    assert_eq!(list[0].hosts[1].content, "b.com");
    assert!(list[0].hosts[1].enabled);
    assert_eq!(list[0].hosts[2].content, "c.com");
    assert!(!list[0].hosts[2].enabled);
}

#[test]
fn matched_group_pair_owns_its_item() {
    let groups = text_to_groups("#[work]\n10.0.0.1 site.local\n#[work]\n".to_string());
    assert_eq!(groups.len(), 2);
    assert_eq!(groups[0].name, "System");
    // nothing in the complete list is tagged with the default name
    assert!(groups[0].list.iter().all(|it| it.group != "System"));
    assert_eq!(groups[1].name, "work");
    assert_eq!(groups[1].list.len(), 1);
    assert_eq!(groups[1].list[0].ip, "10.0.0.1");
    assert_eq!(groups[1].list[0].group, "work");
    assert_eq!(groups[1].list[0].hosts.len(), 1);
    assert_eq!(groups[1].list[0].hosts[0].content, "site.local");
    assert!(groups[1].list[0].hosts[0].enabled);
    assert_eq!(groups[1].text, "10.0.0.1 site.local");
}

#[test]
fn unterminated_group_reverts_to_default() {
    let lines = text_to_lines("#[x]\n1.1.1.1 a.com\n");
    let list = lines_to_list(&lines, None);
    assert_eq!(list.len(), 1);
    assert_eq!(list[0].ip, "1.1.1.1");
    assert_eq!(list[0].group, "System");
    // and no named group is extracted for the unmatched delimiter
    let groups = text_to_groups("#[x]\n1.1.1.1 a.com\n".to_string());
    assert_eq!(groups.len(), 1);
    assert_eq!(groups[0].name, "System");
}

#[test]
fn unterminated_group_merges_with_existing_default_item() {
    // the same IP stands at default scope and inside an unterminated group:
    // the recovery reverts the staged hosts to the default group, where they
    // merge into the one existing item for that (group, IP) pair
    let lines = text_to_lines("1.1.1.1 a.com\n#[g]\n1.1.1.1 b.com\n");
    let list = lines_to_list(&lines, None);
    assert_eq!(list.len(), 1);
    assert_eq!(list[0].ip, "1.1.1.1");
    assert_eq!(list[0].group, "System");
    let names: Vec<&str> = list[0].hosts.iter().map(|h| h.content.as_str()).collect();
    assert_eq!(names, vec!["a.com", "b.com"]);
}

#[test]
fn classifier_edge_cases() {
    // a lone `#` is not an entry candidate
    let lines = text_to_lines("#\n");
    assert!(matches!(&lines[0], Line::Other(s) if s == "#"));
    // a bare IP with no hosts is not actionable
    let lines = text_to_lines("1.1.1.1\n");
    assert!(matches!(&lines[0], Line::Other(s) if s == "1.1.1.1"));
    // an invalid IP degrades to an opaque line, trimmed
    let lines = text_to_lines("  999.0.0.1 a.com  \n");
    assert!(matches!(&lines[0], Line::Other(s) if s == "999.0.0.1 a.com"));
    // an inline comment ends the host list at the `#`
    let lines = text_to_lines("1.1.1.1 a.com b.com#rest c.com\n");
    assert!(matches!(&lines[0], Line::Valid { hosts, .. }
        if hosts == &vec!["a.com".to_string(), "b.com".to_string()]));
    // a token that starts with `#` contributes nothing and stops the list
    let lines = text_to_lines("1.1.1.1 #all a.com\n");
    assert!(matches!(&lines[0], Line::Other(s) if s == "1.1.1.1 #all a.com"));
    // a group delimiter must be a single token
    let lines = text_to_lines("#[a b]\n");
    assert!(matches!(&lines[0], Line::Other(s) if s == "#[a b]"));
    // whitespace-only lines are blank
    let lines = text_to_lines("   \t  \n");
    assert!(matches!(&lines[0], Line::Empty));
    // a disabled entry
    let lines = text_to_lines("# 8.8.8.8 dns.example\n");
    assert!(matches!(&lines[0], Line::Valid { ip, enabled: false, .. } if ip == "8.8.8.8"));
}

#[test]
fn nested_delimiter_is_ignored() {
    let text = "#[a]\n1.1.1.1 one.test\n#[b]\n2.2.2.2 two.test\n#[a]\n";
    let lines = text_to_lines(text);
    let list = lines_to_list(&lines, None);
    assert_eq!(list.len(), 2);
    assert_eq!(list[0].group, "a");
    assert_eq!(list[1].group, "a");
    let groups = text_to_groups(text.to_string());
    assert_eq!(groups.len(), 2);
    assert_eq!(groups[1].name, "a");
    assert_eq!(groups[1].text, "1.1.1.1 one.test\n#[b]\n2.2.2.2 two.test");
}

#[test]
fn reserved_name_delimiter_is_ignored() {
    let lines = text_to_lines("#[System]\n1.1.1.1 a.com\n#[System]\n");
    let list = lines_to_list(&lines, None);
    assert_eq!(list.len(), 1);
    assert_eq!(list[0].group, "System");
    let groups = text_to_groups("#[System]\n1.1.1.1 a.com\n#[System]\n".to_string());
    assert_eq!(groups.len(), 1);
}

#[test]
fn scope_filter_rederives_a_single_group() {
    let lines = text_to_lines("3.3.3.3 c.com\n#[skipped]\n4.4.4.4 d.com\n#[skipped]\n");
    let list = lines_to_list(&lines, Some("foo"));
    // under a scope filter delimiters are ignored entirely
    assert_eq!(list.len(), 2);
    assert_eq!(list[0].group, "foo");
    assert_eq!(list[1].group, "foo");
    assert_eq!(list[1].ip, "4.4.4.4");
}

#[test]
fn same_group_in_disjoint_blocks_is_one_group() {
    let text = "#[g]\n1.1.1.1 a.test\n#[g]\nx\n#[g]\n2.2.2.2 b.test\n#[g]\n";
    let groups = text_to_groups(text.to_string());
    assert_eq!(groups.len(), 2);
    assert_eq!(groups[1].name, "g");
    assert_eq!(groups[1].list.len(), 2);
    assert_eq!(groups[1].text, "1.1.1.1 a.test\n2.2.2.2 b.test");
}

#[test]
fn dedup_keeps_first_occurrence_flag() {
    let lines = text_to_lines("1.1.1.1 a.com\n# 1.1.1.1 a.com b.com\n");
    let list = lines_to_list(&lines, None);
    assert_eq!(list.len(), 1);
    assert_eq!(list[0].hosts.len(), 2);
    assert_eq!(list[0].hosts[0].content, "a.com");
    assert!(list[0].hosts[0].enabled);
    assert_eq!(list[0].hosts[1].content, "b.com");
    assert!(!list[0].hosts[1].enabled);
}

#[test]
fn get_groups_returns_transfer_records() {
    let dtos = hed2::get_groups("#[work]\n10.0.0.1 site.local\n#[work]\n".to_string());
    assert_eq!(dtos.len(), 2);
    assert_eq!(dtos[0].name, "System");
    assert_eq!(dtos[1].name, "work");
    assert_eq!(dtos[1].list.len(), 1);
}
