use ccfolia_tweaks::log_parser::{analyse_copied_text_log, analyse_html_log};

fn owned(v: Vec<(&str, &str)>) -> Vec<(String, String)> {
    v.into_iter().map(|(a, b)| (a.to_string(), b.to_string())).collect()
}

fn pairs(v: &[(&str, &str)]) -> Vec<(String, String)> {
    v.iter().map(|(a, b)| (a.to_string(), b.to_string())).collect()
}

#[test]
fn html_reads_each_message_trimmed() {
    let log = "  [main] Alice : Hello\n[main]Bob:Hi: there\n\n";
    let got = owned(analyse_html_log(log).unwrap());
    assert_eq!(got, pairs(&[("Alice", "Hello"), ("Bob", "Hi: there")]));
}

#[test]
fn html_empty_log_has_no_messages() {
    assert!(analyse_html_log("").unwrap().is_empty());
    assert!(analyse_html_log(" \n\t ").unwrap().is_empty());
}

#[test]
fn html_stops_at_text_that_opens_no_message() {
    let got = owned(analyse_html_log("hello [main]A:b").unwrap());
    assert!(got.is_empty());
}

#[test]
fn html_stops_at_message_without_colon() {
    let got = owned(analyse_html_log("[main]A:one[main]no colon here").unwrap());
    assert_eq!(got, pairs(&[("A", "one")]));
}

#[test]
fn html_keeps_multibyte_text() {
    let got = owned(analyse_html_log("[main]アリス：x:こんにちは\u{3000}[main]ボブ:やあ").unwrap());
    assert_eq!(got, pairs(&[("アリス：x", "こんにちは"), ("ボブ", "やあ")]));
}

#[test]
fn html_empty_name_and_content() {
    let got = owned(analyse_html_log("[main]:[main] : ").unwrap());
    assert_eq!(got, pairs(&[("", ""), ("", "")]));
}

#[test]
fn copied_reads_name_plates_with_day_and_time() {
    let log = "Alice - 今日 12:34\nHello\nBob - 昨日 1:05\nHi\n";
    let got = owned(analyse_copied_text_log(log).unwrap());
    assert_eq!(got, pairs(&[("Alice", "Hello"), ("Bob", "Hi")]));
}

#[test]
fn copied_reads_last_week_and_dates() {
    let log = "A - 先週 月曜日 23:59\nfirst\nB C - 2024/1/02\n second \n";
    let got = owned(analyse_copied_text_log(log).unwrap());
    assert_eq!(got, pairs(&[("A", "first"), ("B C", "second")]));
}

#[test]
fn copied_name_is_not_trimmed() {
    let log = "  Alice  - 今日 12:34 x";
    // the whole log is trimmed first; the name keeps its inner spacing
    let got = owned(analyse_copied_text_log(log).unwrap());
    assert_eq!(got, pairs(&[("Alice ", "x")]));
}

#[test]
fn copied_time_stamp_falls_back_to_date() {
    // a day without a clock time is not a stamp; the date form is tried instead
    let got = owned(analyse_copied_text_log("A - 今日 12\nx").unwrap());
    assert!(got.is_empty());
    let got = owned(analyse_copied_text_log("A - 12/3/4 rest").unwrap());
    assert_eq!(got, pairs(&[("A", "rest")]));
}

#[test]
fn copied_name_with_line_break_is_no_name_plate() {
    let got = owned(analyse_copied_text_log("A\nB - 今日 1:2 x").unwrap());
    assert!(got.is_empty());
}

#[test]
fn copied_name_plate_may_start_inside_a_line() {
    let log = "A - 今日 1:2 hello B - 12/1/1 bye";
    let got = owned(analyse_copied_text_log(log).unwrap());
    // the content after a stamp is scanned for the next plate from its first
    // character on, and a plate's name may start with a space
    assert_eq!(got, pairs(&[("A", ""), (" hello B", "bye")]));
}

#[test]
fn copied_first_name_plate_must_open_the_log() {
    let got = owned(analyse_copied_text_log("intro\nA - 今日 1:2 x").unwrap());
    assert!(got.is_empty());
}

#[test]
fn copied_weekday_takes_one_character() {
    let got = owned(analyse_copied_text_log("A - 先週 水曜日 9:00 x").unwrap());
    assert_eq!(got, pairs(&[("A", "x")]));
    let got = owned(analyse_copied_text_log("A - 先週 水木曜日 9:00 x").unwrap());
    assert!(got.is_empty());
}
