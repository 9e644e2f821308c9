use githubdns::hosts::{has_token, is_comment_line, is_stale, reconcile, MARKER};
use githubdns::resolution::ResolutionMap;

fn text(s: &str) -> Vec<char> {
    s.chars().collect()
}

fn resolved(entries: &[(&str, &str)]) -> ResolutionMap {
    let mut map = ResolutionMap::new();
    for (domain, address) in entries {
        map.insert(String::from(*domain), String::from(*address));
    }
    map
}

#[test]
fn marker_is_the_generated_by_line() {
    assert_eq!(MARKER, "# ----Generated By githubdns ---");
}

#[test]
fn empty_content_gets_the_block() {
    let map = resolved(&[("github.com", "192.30.253.112")]);
    for delimiter in ["\n", "\r", "\r\n"] {
        let lines = [
            "# ----Generated By githubdns ---",
            "192.30.253.112\t github.com",
            "# ----Generated By githubdns ---",
        ];
        assert_eq!(reconcile("", delimiter, &map), lines.join(delimiter));
    }
}

#[test]
fn block_between_two_markers_after_the_old_lines() {
    let map = resolved(&[("github.com", "192.30.253.112")]);
    assert_eq!(
        reconcile("127.0.0.1 localhost", "\n", &map),
        "127.0.0.1 localhost\n\
         # ----Generated By githubdns ---\n\
         192.30.253.112\t github.com\n\
         # ----Generated By githubdns ---"
    );
}

#[test]
fn whole_token_only() {
    let map = resolved(&[("github.com", "1.1.1.1")]);
    let content = "10.0.0.1 notgithub.com\n10.0.0.2\tgithub.com\n10.0.0.3 github.com\n10.0.0.4 x.github.com";
    assert_eq!(
        reconcile(content, "\n", &map),
        "10.0.0.1 notgithub.com\n\
         10.0.0.4 x.github.com\n\
         # ----Generated By githubdns ---\n\
         1.1.1.1\t github.com\n\
         # ----Generated By githubdns ---"
    );
}

#[test]
fn token_at_the_start_of_a_line_or_behind_white_space() {
    assert!(has_token(&text("github.com"), &text("github.com")));
    assert!(has_token(&text("1.2.3.4 github.com"), &text("github.com")));
    assert!(has_token(&text("1.2.3.4\tgithub.com"), &text("github.com")));
    assert!(has_token(&text("1.2.3.4 github.com # note"), &text("github.com")));
    assert!(has_token(&text("notgithub.com github.com"), &text("github.com")));
    assert!(has_token(&text("1.2.3.4 github.com.cn"), &text("github.com")));
    assert!(!has_token(&text("1.2.3.4 notgithub.com"), &text("github.com")));
    assert!(!has_token(&text("1.2.3.4 api.github.com"), &text("github.com")));
    assert!(!has_token(&text("1.2.3.4 github.co"), &text("github.com")));
    assert!(!has_token(&text(""), &text("github.com")));
    assert!(!has_token(&text(""), &text("")));
    assert!(!has_token(&text("1.2.3.4 github.com"), &text("")));
}

#[test]
fn comment_starts_with_a_hash_behind_white_space() {
    assert!(is_comment_line(&text("# note")));
    assert!(is_comment_line(&text("#")));
    assert!(is_comment_line(&text("  \t# note")));
    assert!(is_comment_line(&text("\u{a0}#")));
    assert!(!is_comment_line(&text("")));
    assert!(!is_comment_line(&text("   ")));
    assert!(!is_comment_line(&text("1.2.3.4 github.com # note")));
    assert!(!is_comment_line(&text("x#")));
}

#[test]
fn stale_is_the_marker_or_a_line_that_names_a_resolved_domain() {
    let map = resolved(&[("github.com", "1.1.1.1"), ("failed.example", "")]);
    assert!(is_stale(&text("# ----Generated By githubdns ---"), &map));
    assert!(is_stale(&text("9.9.9.9 github.com"), &map));
    assert!(!is_stale(&text("# 9.9.9.9 github.com"), &map));
    assert!(!is_stale(&text(" # ----Generated By githubdns ---"), &map));
    assert!(!is_stale(&text("9.9.9.9 failed.example"), &map));
    assert!(!is_stale(&text(""), &map));
    assert!(!is_stale(&text("127.0.0.1 localhost"), &map));
}

#[test]
fn comments_blank_lines_and_other_hosts_stay_in_order() {
    let map = resolved(&[("github.com", "1.1.1.1"), ("codeload.github.com", "2.2.2.2")]);
    let content = "# hosts\n\
                   127.0.0.1 localhost\n\
                   \n\
                   9.9.9.9 github.com\n\
                   # 9.9.9.9 github.com stays, a comment\n\
                   ::1 localhost\n\
                   8.8.8.8\tcodeload.github.com\n\
                   \t\n\
                   10.0.0.1 mygithub.com";
    assert_eq!(
        reconcile(content, "\n", &map),
        "# hosts\n\
         127.0.0.1 localhost\n\
         \n\
         # 9.9.9.9 github.com stays, a comment\n\
         ::1 localhost\n\
         \t\n\
         10.0.0.1 mygithub.com\n\
         # ----Generated By githubdns ---\n\
         1.1.1.1\t github.com\n\
         2.2.2.2\t codeload.github.com\n\
         # ----Generated By githubdns ---"
    );
}

#[test]
fn old_block_is_replaced() {
    let map = resolved(&[("github.com", "1.1.1.1")]);
    let content = "127.0.0.1 localhost\r\n\
                   # ----Generated By githubdns ---\r\n\
                   9.9.9.9\t github.com\r\n\
                   # ----Generated By githubdns ---\r\n\
                   # ----Generated By githubdns ---";
    assert_eq!(
        reconcile(content, "\r\n", &map),
        "127.0.0.1 localhost\r\n\
         # ----Generated By githubdns ---\r\n\
         1.1.1.1\t github.com\r\n\
         # ----Generated By githubdns ---"
    );
}

#[test]
fn domains_without_address_get_no_line_and_keep_theirs() {
    let map = resolved(&[
        ("github.com", ""),
        ("codeload.github.com", "2.2.2.2"),
        ("assets-cdn.github.com", ""),
    ]);
    assert_eq!(
        reconcile("9.9.9.9 github.com", "\n", &map),
        "9.9.9.9 github.com\n\
         # ----Generated By githubdns ---\n\
         2.2.2.2\t codeload.github.com\n\
         # ----Generated By githubdns ---"
    );
}

#[test]
fn nothing_resolved_gives_an_empty_block() {
    let map = ResolutionMap::new();
    assert_eq!(
        reconcile("a\nb", "\n", &map),
        "a\nb\n# ----Generated By githubdns ---\n# ----Generated By githubdns ---"
    );
}

#[test]
fn entries_come_in_the_order_of_the_map() {
    let map = resolved(&[("b.example", "2.2.2.2"), ("a.example", "1.1.1.1"), ("c.example", "3.3.3.3")]);
    assert_eq!(
        reconcile("x", "\n", &map),
        "x\n\
         # ----Generated By githubdns ---\n\
         2.2.2.2\t b.example\n\
         1.1.1.1\t a.example\n\
         3.3.3.3\t c.example\n\
         # ----Generated By githubdns ---"
    );
}

#[test]
fn second_run_changes_nothing() {
    let map = resolved(&[
        ("github.com", "192.30.253.112"),
        ("github.global.ssl.fastly.net", "151.101.1.194"),
        ("codeload.github.com", ""),
    ]);
    let contents = [
        "",
        "127.0.0.1 localhost",
        "127.0.0.1 localhost\n",
        "# c\n\n1.1.1.1 github.com\n2.2.2.2 notgithub.com\n",
        "a\r\nb\rc\nd",
        "# ----Generated By githubdns ---\n1.1.1.1\t github.com\n# ----Generated By githubdns ---",
        "x\r",
    ];
    for content in contents {
        for delimiter in ["\n", "\r", "\r\n"] {
            let once = reconcile(content, delimiter, &map);
            let twice = reconcile(&once, delimiter, &map);
            assert_eq!(twice, once, "{:?} at {:?}", content, delimiter);
        }
    }
}

#[test]
fn second_run_on_the_block_alone_gives_the_block() {
    let map = resolved(&[("github.com", "192.30.253.112")]);
    let block = "# ----Generated By githubdns ---\n192.30.253.112\t github.com\n# ----Generated By githubdns ---";
    assert_eq!(reconcile("", "\n", &map), block);
    assert_eq!(reconcile(block, "\n", &map), block);
    assert_eq!(reconcile("9.9.9.9 github.com", "\n", &map), block);
}

#[test]
fn one_empty_line_is_a_line() {
    let map = resolved(&[("github.com", "1.1.1.1")]);
    assert_eq!(
        reconcile("\n", "\n", &map),
        "\n\n# ----Generated By githubdns ---\n1.1.1.1\t github.com\n# ----Generated By githubdns ---"
    );
}

#[test]
fn empty_domain_names_no_line() {
    let map = resolved(&[("", "1.1.1.1")]);
    assert_eq!(
        reconcile("127.0.0.1 localhost\n\n# c", "\n", &map),
        "127.0.0.1 localhost\n\n# c\n# ----Generated By githubdns ---\n1.1.1.1\t \n# ----Generated By githubdns ---"
    );
}

#[test]
fn delimiter_that_overlaps_itself_can_cut_the_new_content_elsewhere() {
    let map = ResolutionMap::new();
    let once = reconcile("xa", "aa", &map);
    assert_eq!(
        once,
        "xaaa# ----Generated By githubdns ---aa# ----Generated By githubdns ---"
    );
    let twice = reconcile(&once, "aa", &map);
    assert_eq!(
        twice,
        "xaaa# ----Generated By githubdns ---aa# ----Generated By githubdns ---aa# ----Generated By githubdns ---"
    );
}

#[test]
fn entry_line_that_is_a_comment_outlives_the_second_run() {
    let map = resolved(&[("x.example", "#1")]);
    let once = reconcile("", "\n", &map);
    assert_eq!(
        once,
        "# ----Generated By githubdns ---\n#1\t x.example\n# ----Generated By githubdns ---"
    );
    assert_eq!(
        reconcile(&once, "\n", &map),
        "#1\t x.example\n# ----Generated By githubdns ---\n#1\t x.example\n# ----Generated By githubdns ---"
    );
}

#[test]
fn each_line_break_cuts_in_its_own_way() {
    let map = resolved(&[("github.com", "1.1.1.1")]);
    let content = "a\r\n9.9.9.9 github.com\r\nb";
    assert_eq!(
        reconcile(content, "\r\n", &map),
        "a\r\nb\r\n# ----Generated By githubdns ---\r\n1.1.1.1\t github.com\r\n# ----Generated By githubdns ---"
    );
    assert_eq!(
        reconcile(content, "\n", &map),
        "a\r\nb\n# ----Generated By githubdns ---\n1.1.1.1\t github.com\n# ----Generated By githubdns ---"
    );
    assert_eq!(
        reconcile(content, "\r", &map),
        "a\r\nb\r# ----Generated By githubdns ---\r1.1.1.1\t github.com\r# ----Generated By githubdns ---"
    );
}
