use ratchet::metrics::{first_token_text, metric_text_at_start};
use ratchet::results::{point_label, short_commit};
use ratchet::session::{agent_command, experiment_branch, experiment_tag, status_marker, summarize_change};
use ratchet::text::{chars_of, decimal_string, join_strings, lines_of, split_on, trimmed_string};

#[test]
fn lines_follow_str_lines() {
    let s = "a\r\nb\n\nc\r";
    let got: Vec<String> = lines_of(&chars_of(s)).iter().map(|l| l.iter().collect()).collect();
    let want: Vec<String> = s.lines().map(|l| l.to_string()).collect();
    assert_eq!(got, want);
    assert!(lines_of(&chars_of("")).is_empty());
    assert_eq!(lines_of(&chars_of("x\n")).len(), 1);
}

#[test]
fn split_and_trim_follow_std() {
    let s = "\ta\t b \t";
    let got: Vec<String> = split_on(&chars_of(s), '\t').iter().map(|f| f.iter().collect()).collect();
    let want: Vec<String> = s.split('\t').map(|f| f.to_string()).collect();
    assert_eq!(got, want);
    let t = "\u{3000} x y\u{2009}\n";
    assert_eq!(trimmed_string(&chars_of(t)), t.trim());
}

#[test]
fn decimal_and_join() {
    assert_eq!(decimal_string(0), "0");
    assert_eq!(decimal_string(1203), "1203");
    assert_eq!(decimal_string(usize::MAX), usize::MAX.to_string());
    let parts = vec!["a".to_string(), "b".to_string(), "c".to_string()];
    assert_eq!(join_strings(&parts, ", "), "a, b, c");
    assert_eq!(join_strings(&vec![], ", "), "");
}

#[test]
fn metric_text_extraction() {
    assert_eq!(metric_text_at_start("throughput: 47107.78 ops", "^throughput:").unwrap(), "47107.78 ops");
    assert_eq!(metric_text_at_start("throughput: 5", "throughput:").unwrap(), "5");
    assert_eq!(metric_text_at_start("nothing here", "^throughput:"), None);
    assert_eq!(metric_text_at_start("throughput:  12.5 ", "^throughput:").unwrap(), "12.5");
    assert_eq!(metric_text_at_start("x throughput: 12.5", "^throughput:"), None);
    assert_eq!(first_token_text("  47107.78 ops/s").unwrap(), "47107.78");
    assert_eq!(first_token_text(" \t "), None);
}

#[test]
fn agent_command_substitutes_every_placeholder() {
    assert_eq!(agent_command("opencode run < {prompt}", ".ratchet-prompt.md"), "opencode run < .ratchet-prompt.md");
    assert_eq!(agent_command("a {prompt} b {prompt}", "p"), "a p b p");
    assert_eq!(agent_command("no placeholder", "p"), "no placeholder");
}

#[test]
fn change_summary() {
    assert_eq!(summarize_change(" a.py | 2 +-\n 1 file changed, 1 insertion(+)\n").unwrap(), "1 file changed, 1 insertion(+)");
    assert_eq!(summarize_change("   ").unwrap(), "agent edit");
    let long = "x".repeat(130);
    let got = summarize_change(&long).unwrap();
    assert_eq!(got, format!("{}...", "x".repeat(117)));
    let exact = "y".repeat(120);
    assert_eq!(summarize_change(&exact).unwrap(), exact);
    let wide = format!("{}\u{e9}{}", "z".repeat(116), "z".repeat(10));
    assert!(summarize_change(&wide).is_err());
}

#[test]
fn tags_and_branches() {
    assert_eq!(experiment_tag(&"mar10".to_string(), 1), "mar10");
    assert_eq!(experiment_tag(&"mar10".to_string(), 2), "mar10-2");
    assert_eq!(experiment_tag(&"mar10".to_string(), 12), "mar10-12");
    assert_eq!(experiment_branch(&"mar10".to_string()), "ratchet/mar10");
}

#[test]
fn markers_and_labels() {
    assert_eq!(status_marker("keep"), "+");
    assert_eq!(status_marker("discard"), "-");
    assert_eq!(status_marker("crash"), "!");
    assert_eq!(status_marker("other"), "?");
    assert_eq!(point_label("baseline").unwrap(), "base");
    assert_eq!(point_label("af694fe123").unwrap(), "af694fe");
    assert_eq!(point_label("abc").unwrap(), "abc");
    assert_eq!(short_commit("0123456789").unwrap(), "0123456");
    assert!(short_commit("abcdef\u{e9}xyz").is_none());
}

#[test]
fn grep_is_a_prefix_match_so_log_prefixed_lines_are_not_read() {
    assert_eq!(metric_text_at_start("INFO throughput: 5", "^throughput:"), None);
    assert_eq!(metric_text_at_start("INFO 12:00 throughput: 47107.78", "throughput:"), None);
}
