use ccfolia_tweaks::log_analyser::LogAnalyser;
use ccfolia_tweaks::text::same_text;

#[test]
fn records_are_trimmed_of_unicode_white_space() {
    let mut a = LogAnalyser::new();
    a.analyse(vec![("A", "\u{3000}\t hello world \u{a0}\n"), ("B", " \u{2028} ")]);
    assert_eq!(a.log, vec![(0, "hello world".to_string()), (1, "".to_string())]);
    // analysing the records again leaves their texts as they are
    let again: Vec<(String, String)> = a.messages();
    let mut b = LogAnalyser::new();
    b.analyse(again.iter().map(|(n, t)| (n.as_str(), t.as_str())).collect());
    assert_eq!(b.log[0], (0, "hello world".to_string()));
}

#[test]
fn same_text_compares_texts() {
    assert!(same_text("アリス", "アリス"));
    assert!(!same_text("アリス", "アリ"));
    assert!(!same_text("a", "b"));
    assert!(same_text("", ""));
}
