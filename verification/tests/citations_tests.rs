use toolbox::citations::reorder_citations;

#[test]
fn adjacent_citations_follow_first_citation_order() {
    let text = "A #cite(<b>) then #cite(<a>). Later #cite(<a>)#cite(<b>) end.";
    assert_eq!(reorder_citations(text), "A #cite(<b>) then #cite(<a>). Later #cite(<b>)#cite(<a>) end.");
}

#[test]
fn separated_citations_are_left_alone() {
    let text = "#cite(<z>) x #cite(<y>) y";
    assert_eq!(reorder_citations(text), text);
    assert_eq!(reorder_citations("no citations"), "no citations");
    assert_eq!(reorder_citations(""), "");
}

#[test]
fn a_run_of_three_is_sorted() {
    let text = "#cite(<k1>) #cite(<k2>) #cite(<k3>) and #cite(<k3>)#cite(<k1>)#cite(<k2>).";
    assert_eq!(
        reorder_citations(text),
        "#cite(<k1>) #cite(<k2>) #cite(<k3>) and #cite(<k1>)#cite(<k2>)#cite(<k3>)."
    );
}

#[test]
fn malformed_marks_are_not_citations() {
    let text = "#cite(<>)#cite(<a>x #cite(<b>)#cite(<a>)";
    assert_eq!(reorder_citations(text), "#cite(<>)#cite(<a>x #cite(<b>)#cite(<a>)");
}

#[test]
fn reordering_twice_changes_nothing_more() {
    let text = "#cite(<q>) #cite(<p>) #cite(<r>)#cite(<p>)#cite(<q>)";
    let once = reorder_citations(text);
    assert_eq!(once, "#cite(<q>) #cite(<p>) #cite(<q>)#cite(<p>)#cite(<r>)");
    assert_eq!(reorder_citations(&once), once);
}
