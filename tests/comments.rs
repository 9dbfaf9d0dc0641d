use attache::models::Task;

#[test]
fn format_comments_strips_bullets_and_enumerators() {
    let input = "  * first comment  \n\n- second\n• third\n1. fourth\n20) fifth\n   \n3.sixth";
    let got = Task::format_comments(input);
    assert_eq!(got, vec!["first comment", "second", "third", "fourth", "fifth", "sixth"]);
}

#[test]
fn format_comments_strips_a_single_marker() {
    assert_eq!(Task::format_comments("* * a"), vec!["* a"]);
    assert_eq!(Task::format_comments("1. 2. b"), vec!["2. b"]);
}

#[test]
fn format_comments_keeps_numbers_without_enumerator_mark() {
    assert_eq!(Task::format_comments("2024 was great"), vec!["2024 was great"]);
    assert_eq!(Task::format_comments("12"), vec!["12"]);
}

#[test]
fn format_comments_drops_lines_that_are_only_markers() {
    assert!(Task::format_comments("-\n*\n12.\n\t\n").is_empty());
    assert!(Task::format_comments("").is_empty());
}

#[test]
fn format_comments_handles_crlf_and_unicode_space() {
    assert_eq!(Task::format_comments("a\r\n\u{3000}b\u{a0}\r\n"), vec!["a", "b"]);
}

#[test]
fn format_comments_is_idempotent_on_marker_free_output() {
    let input = " - Great post!\n\n2) Love this\n   thanks   ";
    let once = Task::format_comments(input);
    let twice = Task::format_comments(&once.join("\n"));
    assert_eq!(once, vec!["Great post!", "Love this", "thanks"]);
    assert_eq!(twice, once);
}
