use ccfolia_tweaks::paging::Pager;

#[test]
fn page_count_rounds_up_and_is_at_least_one() {
    let p = Pager::new(100);
    assert_eq!(p.page_count(0), 1);
    assert_eq!(p.page_count(1), 1);
    assert_eq!(p.page_count(100), 1);
    assert_eq!(p.page_count(101), 2);
    assert_eq!(p.page_count(250), 3);
}

#[test]
fn pages_cover_the_log() {
    let mut p = Pager::new(100);
    assert_eq!(p.visible_span(250), (0, 100));
    assert!(!p.has_previous());
    assert!(p.has_next(p.page_count(250)));
    p.go_next();
    assert_eq!(p.visible_span(250), (100, 200));
    p.go_next();
    assert_eq!(p.visible_span(250), (200, 250));
    assert!(!p.has_next(p.page_count(250)));
    assert!(p.has_previous());
    p.go_previous();
    assert_eq!(p.current_page, 1);
    p.reset();
    assert_eq!(p.current_page, 0);
    assert_eq!(p.visible_span(0), (0, 0));
}

#[test]
fn empty_log_has_one_page_at_any_page_size() {
    let p = Pager::new(0);
    assert_eq!(p.page_count(0), 1);
    assert_eq!(p.visible_span(0), (0, 0));
}
