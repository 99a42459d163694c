use ccfolia_tweaks::log_analyser::{CharactorSet, LogAnalyser};

#[test]
fn query_charactor_registers_each_name_once() {
    let mut cs = CharactorSet::new();
    assert_eq!(cs.query_charactor("Alice"), 0);
    assert_eq!(cs.query_charactor("Bob"), 1);
    assert_eq!(cs.query_charactor("Alice"), 0);
    assert_eq!(cs.query_charactor("アリス"), 2);
    assert_eq!(cs.charactors, vec!["Alice".to_string(), "Bob".to_string(), "アリス".to_string()]);
}

#[test]
fn analyse_records_messages_under_speakers() {
    let mut a = LogAnalyser::default();
    a.analyse(vec![("Alice", " hi "), ("Bob", "yo"), ("Alice", "again")]);
    assert_eq!(a.charactors.charactors, vec!["Alice".to_string(), "Bob".to_string()]);
    assert_eq!(
        a.log,
        vec![(0, "hi".to_string()), (1, "yo".to_string()), (0, "again".to_string())]
    );
}

#[test]
fn analyse_removes_edit_mark_and_drops_empty_messages() {
    let mut a = LogAnalyser::new();
    a.analyse(vec![
        ("A", "fixed[編集済]"),
        ("B", "[編集済]"),
        ("C", ""),
        ("D", "  "),
        ("E", "x [編集済] y"),
        ("F", "twice[編集済][編集済]"),
    ]);
    assert_eq!(
        a.charactors.charactors,
        vec!["A".to_string(), "D".to_string(), "E".to_string(), "F".to_string()]
    );
    assert_eq!(
        a.log,
        vec![
            (0, "fixed".to_string()),
            (1, "".to_string()),
            (2, "x [編集済] y".to_string()),
            (3, "twice[編集済]".to_string()),
        ]
    );
}

#[test]
fn analyse_twice_equals_analyse_of_both() {
    let first = vec![("A", "1"), ("B", "2")];
    let second = vec![("B", "3"), ("C", "4")];
    let mut x = LogAnalyser::new();
    x.analyse(first.clone());
    x.analyse(second.clone());
    let mut y = LogAnalyser::new();
    let mut both = first;
    both.extend(second);
    y.analyse(both);
    assert_eq!(x.charactors.charactors, y.charactors.charactors);
    assert_eq!(x.log, y.log);
}

#[test]
fn messages_resolve_speaker_names() {
    let mut a = LogAnalyser::new();
    a.analyse(vec![("A", "1"), ("B", "2"), ("A", "3")]);
    let m = a.messages();
    assert_eq!(
        m,
        vec![
            ("A".to_string(), "1".to_string()),
            ("B".to_string(), "2".to_string()),
            ("A".to_string(), "3".to_string()),
        ]
    );
}

#[test]
fn charactor_name_falls_back_to_unknown() {
    let mut a = LogAnalyser::new();
    a.analyse(vec![("A", "1")]);
    assert_eq!(a.charactor_name(0), "A");
    assert_eq!(a.charactor_name(1), "Unknown");
}

#[test]
fn export_writes_main_lines() {
    let mut a = LogAnalyser::new();
    a.analyse(vec![("A", "1"), ("B", "two words")]);
    assert_eq!(a.export_text(), "[main] A : 1\n\n[main] B : two words\n\n");
    assert_eq!(LogAnalyser::new().export_text(), "");
}

#[test]
fn export_reads_back_as_html_log() {
    let mut a = LogAnalyser::new();
    a.analyse(vec![("A", "1"), ("B", " two  words "), ("A", "三")]);
    let text = a.export_text();
    let back = ccfolia_tweaks::log_parser::analyse_html_log(&text).unwrap();
    let mut b = LogAnalyser::new();
    b.analyse(back);
    assert_eq!(a.messages(), b.messages());
}

#[test]
fn export_read_as_html_gives_the_records() {
    let mut a = LogAnalyser::new();
    a.analyse(vec![("A", "1"), ("B", "two\nlines"), ("A", ""), ("C", "  ")]);
    let text = a.export_text();
    let back: Vec<(String, String)> = ccfolia_tweaks::log_parser::analyse_html_log(&text)
        .unwrap()
        .into_iter()
        .map(|(n, t)| (n.to_string(), t.to_string()))
        .collect();
    assert_eq!(back, a.messages());
}

#[test]
fn export_of_untrimmed_names_reads_back_trimmed() {
    let mut a = LogAnalyser::new();
    a.analyse(
        ccfolia_tweaks::log_parser::analyse_copied_text_log("  x - 今日 1:2 hi\n B  - 1/2/3 yo")
            .unwrap(),
    );
    assert_eq!(a.charactors.charactors, vec!["x".to_string(), " B ".to_string()]);
    let back: Vec<(String, String)> =
        ccfolia_tweaks::log_parser::analyse_html_log(&a.export_text())
            .unwrap()
            .into_iter()
            .map(|(n, t)| (n.to_string(), t.to_string()))
            .collect();
    assert_eq!(back, vec![("x".to_string(), "hi".to_string()), ("B".to_string(), "yo".to_string())]);
}

#[test]
fn all_records_in_range_checks_indices() {
    let mut a = LogAnalyser::new();
    a.analyse(vec![("A", "1")]);
    assert!(a.all_records_in_range());
    a.log.push((5, "x".to_string()));
    assert!(!a.all_records_in_range());
}
