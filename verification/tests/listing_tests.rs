use toolbox::listing::{citation_stats, cite_keys, drop_uncredited_citations, is_text_input, order_by_number, rename_plan};

fn owned(v: &[&str]) -> Vec<String> {
    v.iter().map(|s| s.to_string()).collect()
}

#[test]
fn files_concatenate_in_number_order() {
    let names = owned(&["10.txt", "chapter2.txt", "intro.txt", "1-a.txt", "99999999999.txt"]);
    assert_eq!(order_by_number(&names), owned(&["intro.txt", "99999999999.txt", "1-a.txt", "chapter2.txt", "10.txt"]));
    assert!(is_text_input("a.txt", "d/a.txt", "d/out.txt"));
    assert!(!is_text_input("out.txt", "d/out.txt", "d/out.txt"));
    assert!(!is_text_input("a.md", "d/a.md", "d/out.txt"));
}

#[test]
fn files_are_renumbered_in_name_order() {
    let plan = rename_plan(&owned(&["b.jpg", "a.png", "c"]));
    assert_eq!(
        plan,
        vec![
            ("a.png".to_string(), "1.png".to_string()),
            ("b.jpg".to_string(), "2.jpg".to_string()),
            ("c".to_string(), "3".to_string()),
        ]
    );
}

#[test]
fn citation_statistics() {
    let text = "#cite(a) x #cite(b) #cite(a) #cite() #cite(c)";
    let keys: Vec<String> = cite_keys(text).iter().map(|k| k.iter().collect()).collect();
    assert_eq!(keys, owned(&["a", "b", "a", "c"]));
    let stats = citation_stats(text, 0);
    let summary: Vec<(String, usize, Vec<usize>)> = stats.iter().map(|s| (s.key.clone(), s.count, s.positions.clone())).collect();
    assert_eq!(
        summary,
        vec![("a".to_string(), 2, vec![0, 2]), ("b".to_string(), 1, vec![1]), ("c".to_string(), 1, vec![3])]
    );
    assert_eq!(citation_stats(text, 2).len(), 1);
}

#[test]
fn uncredited_citations_are_dropped() {
    assert_eq!(drop_uncredited_citations("张三等#cite(k1)说，#cite(k2)。"), "张三等#cite(k1)说，。");
    assert_eq!(drop_uncredited_citations("no cites"), "no cites");
}

#[test]
fn renamed_files_never_share_a_name() {
    let plan = rename_plan(&owned(&["a.txt", "a.md", "b", "c.", ".hidden"]));
    let new_names: Vec<String> = plan.iter().map(|p| p.1.clone()).collect();
    assert_eq!(new_names, owned(&["1", "2.md", "3.txt", "4", "5"]));
    for i in 0..new_names.len() {
        for j in i + 1..new_names.len() {
            assert_ne!(new_names[i], new_names[j]);
        }
    }
}
