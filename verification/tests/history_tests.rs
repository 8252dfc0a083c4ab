use alman::history::{extract_command_from_history_line, parse_history_file, rejected_lines};

#[test]
fn extended_line_gives_what_follows_the_semicolon() {
    assert_eq!(extract_command_from_history_line(": 1700000000:0;ls -la /tmp"), "ls -la /tmp");
    assert_eq!(extract_command_from_history_line(": 1:0;  git status  "), "git status");
    assert_eq!(extract_command_from_history_line(": 1:0;echo a;echo b"), "echo a;echo b");
}

#[test]
fn extended_line_without_command_gives_nothing() {
    assert_eq!(extract_command_from_history_line(": 1700000000:0;"), "");
    assert_eq!(extract_command_from_history_line(": 1700000000:0;   "), "");
    assert_eq!(extract_command_from_history_line(": 1:0;: 2:0;ls"), "");
    assert_eq!(extract_command_from_history_line(": 1:0;caf\u{e9}"), "");
}

#[test]
fn marker_line_gives_what_follows_the_marker() {
    assert_eq!(extract_command_from_history_line("- cmd: git status"), "git status");
    assert_eq!(extract_command_from_history_line("- cmd:ls"), "ls");
    assert_eq!(extract_command_from_history_line("- cmd:"), "");
    assert_eq!(extract_command_from_history_line("- cmd: caf\u{e9}"), "");
}

#[test]
fn comment_line_gives_nothing() {
    assert_eq!(extract_command_from_history_line("#1700000000"), "");
    assert_eq!(extract_command_from_history_line("#"), "");
}

#[test]
fn plain_line_is_the_command() {
    assert_eq!(extract_command_from_history_line("cargo build --release"), "cargo build --release");
    assert_eq!(extract_command_from_history_line(""), "");
    assert_eq!(extract_command_from_history_line(" padded "), " padded ");
    assert_eq!(extract_command_from_history_line("caf\u{e9} au lait"), "");
    assert_eq!(extract_command_from_history_line("a\u{a0}b"), "a\u{a0}b");
}

#[test]
fn colon_without_space_is_a_plain_line() {
    assert_eq!(extract_command_from_history_line(":wq"), ":wq");
    assert_eq!(extract_command_from_history_line("-cmd: x"), "-cmd: x");
}

#[test]
fn history_comes_out_newest_first() {
    let content = "git status\ncargo build\nls -la\n";
    assert_eq!(parse_history_file(content), vec!["ls -la", "cargo build", "git status"]);
}

#[test]
fn history_without_final_line_feed() {
    assert_eq!(parse_history_file("first one\nsecond one"), vec!["second one", "first one"]);
}

#[test]
fn empty_history_holds_nothing() {
    assert_eq!(parse_history_file(""), Vec::<String>::new());
    assert_eq!(parse_history_file("\n\n   \n"), Vec::<String>::new());
}

#[test]
fn metadata_lines_are_dropped() {
    let content = "#1700000000\nHISTTIMEFORMAT=%F\nHISTSIZE=1000\nHISTFILESIZE=2000\ngit log\n";
    assert_eq!(parse_history_file(content), vec!["git log"]);
}

#[test]
fn short_commands_are_dropped() {
    assert_eq!(parse_history_file("l\nls\nabc\nab \n  cd  \n"), vec!["abc"]);
}

#[test]
fn lines_are_trimmed() {
    assert_eq!(parse_history_file("   git pull  \r\n\tmake test\t\r\n"), vec!["make test", "git pull"]);
}

#[test]
fn lines_with_foreign_characters_are_dropped() {
    let content = "echo ok\necho caf\u{e9}\necho\u{a0}fine\n";
    assert_eq!(parse_history_file(content), vec!["echo\u{a0}fine", "echo ok"]);
}

#[test]
fn the_three_formats_mix() {
    let content = ": 1700000000:0;ls -la /tmp\n- cmd: git status\nmake all\n: 1700000001:0;\n";
    assert_eq!(parse_history_file(content), vec!["make all", "git status", "ls -la /tmp"]);
}

#[test]
fn extended_line_is_normalized() {
    assert_eq!(parse_history_file(": 1700000000:0;ls -la /tmp"), vec!["ls -la /tmp"]);
}

#[test]
fn indented_metadata_is_metadata() {
    assert_eq!(parse_history_file("   # note\n  HISTSIZE=5\nreal command\n"), vec!["real command"]);
}

#[test]
fn line_without_semicolon_is_no_extended_record() {
    assert_eq!(extract_command_from_history_line(": foo bar"), ": foo bar");
    assert_eq!(extract_command_from_history_line(": 1700000000:0"), ": 1700000000:0");
    assert_eq!(extract_command_from_history_line(": "), ": ");
    assert_eq!(extract_command_from_history_line(": caf\u{e9}"), "");
    assert_eq!(parse_history_file(": foo bar\n: 1:0;ls -la\n"), vec!["ls -la", ": foo bar"]);
}

#[test]
fn rejected_lines_are_numbered_from_the_first_line() {
    assert_eq!(rejected_lines(""), Vec::<usize>::new());
    assert_eq!(rejected_lines("echo ok\nls -la\n"), Vec::<usize>::new());
    assert_eq!(rejected_lines("caf\u{e9}"), vec![1]);
    assert_eq!(rejected_lines("echo ok\necho caf\u{e9}\necho\u{a0}fine\n\u{4e2d}\n"), vec![4, 2]);
    assert_eq!(rejected_lines("\u{e9}\n\u{e9}\n\u{e9}"), vec![3, 2, 1]);
}

#[test]
fn rejected_lines_give_no_command() {
    let content = "echo ok\necho caf\u{e9}\nmake test\n";
    assert_eq!(rejected_lines(content), vec![2]);
    assert_eq!(parse_history_file(content), vec!["make test", "echo ok"]);
}
