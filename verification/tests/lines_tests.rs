use toolbox::lines::{
    dry_run_line, is_excluded, join_summaries, prune_markdown, replace_all, split_by, strip_lines, summary_segment,
    SummaryIssue,
};

fn owned(v: &[&str]) -> Vec<String> {
    v.iter().map(|s| s.to_string()).collect()
}

fn chars(s: &str) -> Vec<char> {
    s.chars().collect()
}

#[test]
fn lines_are_cut_at_the_last_delimiter() {
    let lines = owned(&["code // note // more", "plain", "x//"]);
    assert_eq!(strip_lines(&lines, "//", true), owned(&["code // note ", "plain", "x"]));
    assert_eq!(strip_lines(&lines, "//", false), owned(&["plain"]));
}

#[test]
fn split_and_replace_like_std() {
    let pieces: Vec<String> = split_by(&chars("aaa"), &chars("aa")).iter().map(|p| p.iter().collect()).collect();
    assert_eq!(pieces, "aaa".split("aa").map(String::from).collect::<Vec<_>>());
    let pieces: Vec<String> = split_by(&chars("a,b,,c"), &chars(",")).iter().map(|p| p.iter().collect()).collect();
    assert_eq!(pieces, owned(&["a", "b", "", "c"]));
    let r: String = replace_all(&chars("aaaa"), &chars("aa"), &chars("b")).iter().collect();
    assert_eq!(r, "aaaa".replace("aa", "b"));
}

#[test]
fn markdown_markers_are_pruned() {
    let md = "### Title\n## Sub\n# Top\n**bold** - item";
    assert_eq!(prune_markdown(md, true, false, false), "Title\nSub\nTop\n**bold** - item");
    assert_eq!(prune_markdown(md, false, true, true), "### Title\n## Sub\n# Top\nbold item");
    assert_eq!(prune_markdown(md, false, false, false), md);
}

#[test]
fn summary_is_the_text_after_the_last_marker() {
    let lines = owned(&["intro 最终概述：", "first part", "最终概述：the end"]);
    assert_eq!(summary_segment(&lines, "最终概述：").unwrap(), "the end");
    assert_eq!(summary_segment(&owned(&["nothing"]), "最终概述：").unwrap_err(), SummaryIssue::NoDelimiter);
    assert_eq!(summary_segment(&owned(&["text 最终概述："]), "最终概述：").unwrap_err(), SummaryIssue::EmptyLastSegment);
    assert_eq!(join_summaries(&owned(&["a", "b"])), "a;b");
}

#[test]
fn directories_are_excluded_by_pattern() {
    assert!(is_excluded("target-debug", Some("target")));
    assert!(!is_excluded("src", Some("target")));
    assert!(!is_excluded("target", None));
    assert!(is_excluded("x", Some("")));
    assert_eq!(dry_run_line("/p", &owned(&["cargo", "build"])), "(Dry run) Will execute in /p: cargo build");
}
