use cmdflow::aggregate::{count_frequencies, extract_token};
use cmdflow::rank::{filter_entries, rank, sort_entries, Ranking};
use cmdflow::source::HistoryFormat;
use cmdflow::store::{append_new_entries, parse_commands, read_log_entries, rebuild_content};

fn table(pairs: &[(&str, usize)]) -> Vec<(String, usize)> {
    pairs.iter().map(|(t, c)| (t.to_string(), *c)).collect()
}

fn strings(items: &[&str]) -> Vec<String> {
    items.iter().map(|s| s.to_string()).collect()
}

#[test]
fn rebuild_is_idempotent_fish() {
    let src = "- cmd: GIT status\nsome noise\n- cmd:   ls -la  \n";
    let first = rebuild_content(src, HistoryFormat::Fish);
    let second = rebuild_content(src, HistoryFormat::Fish);
    assert_eq!(first, second);
    assert_eq!(first, "git status\nls -la\n");
}

#[test]
fn rebuild_is_idempotent_bash() {
    let src = "LS -la\n\n# a comment\n  CD /tmp  \n";
    let first = rebuild_content(src, HistoryFormat::Bash);
    let second = rebuild_content(src, HistoryFormat::Bash);
    assert_eq!(first, second);
    assert_eq!(first, "ls -la\ncd /tmp\n");
}

#[test]
fn rebuild_of_empty_source_is_empty() {
    assert_eq!(rebuild_content("", HistoryFormat::Bash), "");
    assert_eq!(rebuild_content("", HistoryFormat::Fish), "");
}

#[test]
fn fish_marker_must_open_the_line() {
    let src = "  - cmd: indented\n- cmd:no space\n- cmd: good\n";
    assert_eq!(rebuild_content(src, HistoryFormat::Fish), "good\n");
}

#[test]
fn stored_entries_are_normalized() {
    let src = "- cmd: \n- cmd:    \n- cmd: LS\n";
    assert_eq!(rebuild_content(src, HistoryFormat::Fish), "ls\n");
    assert_eq!(rebuild_content("   \nEcho Hi\n", HistoryFormat::Bash), "echo hi\n");
}

#[test]
fn append_deduplicates_after_normalization() {
    let out = append_new_entries(&Vec::new(), "A\na\n  a  \n", HistoryFormat::Bash);
    assert_eq!(out, strings(&["a"]));
}

#[test]
fn crlf_line_endings_are_handled() {
    let src = "ls\r\ncd /tmp\r\n";
    assert_eq!(rebuild_content(src, HistoryFormat::Bash), "ls\ncd /tmp\n");
}

#[test]
fn append_new_never_duplicates() {
    let src = "a\nb\na\nc\n";
    let first = append_new_entries(&Vec::new(), src, HistoryFormat::Bash);
    assert_eq!(first, strings(&["a", "b", "c"]));
    let second = append_new_entries(&first, src, HistoryFormat::Bash);
    assert_eq!(second, strings(&["a", "b", "c"]));
}

#[test]
fn append_new_keeps_existing_order() {
    let existing = strings(&["old", "b"]);
    let out = append_new_entries(&existing, "b\nnew\n", HistoryFormat::Bash);
    assert_eq!(out, strings(&["old", "b", "new"]));
}

#[test]
fn parse_commands_lists_source_commands() {
    let cmds = parse_commands("- cmd: one\nx\n- cmd: two\n", HistoryFormat::Fish);
    assert_eq!(cmds, strings(&["one", "two"]));
}

#[test]
fn token_is_lower_cased_leading_word() {
    assert_eq!(extract_token("GIT status --short"), Some("git".to_string()));
}

#[test]
fn whitespace_only_command_yields_no_token() {
    assert_eq!(extract_token("  "), None);
    assert_eq!(extract_token(""), None);
}

#[test]
fn non_alphanumeric_start_yields_no_token() {
    assert_eq!(extract_token("-la"), None);
    assert_eq!(extract_token("./run.sh now"), None);
}

#[test]
fn frequency_counts_are_exact() {
    let entries = strings(&["ls -la", "ls", "cd /tmp", "ls -a"]);
    let mut got = count_frequencies(&entries);
    sort_entries(&mut got);
    assert_eq!(got, table(&[("ls", 3), ("cd", 1)]));
}

#[test]
fn frequency_skips_invalid_tokens() {
    let entries = strings(&["-x", "  ", "echo hi", "#nope"]);
    let got = count_frequencies(&entries);
    assert_eq!(got, table(&[("echo", 1)]));
}

#[test]
fn ranking_sorts_and_truncates() {
    let counts = table(&[("ls", 3), ("cd", 1), ("git", 5)]);
    match rank(counts, 2) {
        Ranking::Top(v) => assert_eq!(v, table(&[("git", 5), ("ls", 3)])),
        Ranking::Empty => panic!("expected entries"),
    }
}

#[test]
fn ranking_breaks_count_ties_by_token() {
    let counts = table(&[("b", 2), ("a", 2), ("c", 9)]);
    match rank(counts, 10) {
        Ranking::Top(v) => assert_eq!(v, table(&[("c", 9), ("a", 2), ("b", 2)])),
        Ranking::Empty => panic!("expected entries"),
    }
}

#[test]
fn filter_modes_are_exclusive_and_order_preserving() {
    let counts = table(&[("git", 5), ("ls", 3), ("cd", 1)]);
    let marks = vec![true, false, false];
    let kept = filter_entries(&counts, &marks, true);
    assert_eq!(kept, table(&[("git", 5)]));
    let failed = filter_entries(&counts, &marks, false);
    assert_eq!(failed, table(&[("ls", 3), ("cd", 1)]));
}

#[test]
fn empty_aggregation_signals_empty() {
    let no_entries: Vec<String> = Vec::new();
    let counts = count_frequencies(&no_entries);
    assert!(counts.is_empty());
    assert!(matches!(rank(counts, 10), Ranking::Empty));
}

#[test]
fn non_empty_aggregation_is_not_signalled_empty() {
    let counts = table(&[("ls", 1)]);
    assert!(matches!(rank(counts, 10), Ranking::Top(_)));
}

#[test]
fn read_log_entries_normalizes() {
    let got = read_log_entries(" Ls -la \n\n   \nCD /tmp\n");
    assert_eq!(got, strings(&["ls -la", "cd /tmp"]));
}

#[test]
fn read_log_entries_of_empty_content() {
    let got = read_log_entries("");
    assert!(got.is_empty());
}

#[test]
fn pipeline_end_to_end() {
    let history = "- cmd: GIT pull\n- cmd: ls -la\n- cmd: git push\n- cmd: ls\nnoise line\n";
    // commands are stored normalized, so the log is already lower-cased
    let log = rebuild_content(history, HistoryFormat::Fish);
    let entries = read_log_entries(&log);
    let counts = count_frequencies(&entries);
    match rank(counts, 1) {
        Ranking::Top(v) => assert_eq!(v, table(&[("git", 2)])),
        Ranking::Empty => panic!("expected entries"),
    }
}

#[test]
fn unicode_commands_are_folded() {
    assert_eq!(extract_token("ÉCHO über"), Some("écho".to_string()));
}

#[test]
fn append_new_works_on_fish_sources() {
    let src = "- cmd: ls\n- cmd: git st\n- cmd: ls\n";
    let out = append_new_entries(&Vec::new(), src, HistoryFormat::Fish);
    assert_eq!(out, strings(&["ls", "git st"]));
}

#[test]
fn ranking_with_large_n_keeps_everything() {
    let counts = table(&[("a", 1), ("b", 2)]);
    match rank(counts, 100) {
        Ranking::Top(v) => assert_eq!(v, table(&[("b", 2), ("a", 1)])),
        Ranking::Empty => panic!("expected entries"),
    }
}

#[test]
fn filter_can_drop_everything() {
    let counts = table(&[("ls", 3)]);
    let kept = filter_entries(&counts, &vec![false], true);
    assert!(kept.is_empty());
}

#[test]
fn read_then_count_matches_rebuilt_log() {
    let log = rebuild_content("LS -la\nls\n# skip\n", HistoryFormat::Bash);
    let entries = read_log_entries(&log);
    assert_eq!(entries, strings(&["ls -la", "ls"]));
    let counts = count_frequencies(&entries);
    assert_eq!(counts, table(&[("ls", 2)]));
}
