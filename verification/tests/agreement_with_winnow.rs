//! The readers agree with the same grammars written with winnow's combinators,
//! on many generated logs.

use ccfolia_tweaks::log_parser::{analyse_copied_text_log, analyse_html_log};
use winnow::ascii::digit1;
use winnow::combinator::{alt, eof, peek, repeat, repeat_till};
use winnow::error::ContextError;
use winnow::token::{any, take_until};
use winnow::Parser;

fn winnow_html_message<'s>(input: &mut &'s str) -> Result<(&'s str, &'s str), ContextError> {
    let _ = "[main]".parse_next(input)?;
    let name: &str = take_until(0.., ':').parse_next(input)?;
    let _ = ':'.parse_next(input)?;
    let body = repeat_till(0.., any.void(), peek(alt(("[main]".void(), eof.void()))))
        .map(|(_, _): ((), ())| ())
        .take()
        .parse_next(input)?;
    Ok((name.trim(), body.trim()))
}

fn winnow_html(log: &str) -> Vec<(String, String)> {
    let mut rest = log.trim();
    let v: Vec<(&str, &str)> = repeat(0.., winnow_html_message).parse_next(&mut rest).unwrap();
    v.into_iter().map(|(a, b)| (a.to_string(), b.to_string())).collect()
}

fn winnow_plate<'s>(input: &mut &'s str) -> Result<&'s str, ContextError> {
    let name = take_until(0.., " - ")
        .verify(|s: &str| !s.contains('\n') && !s.contains('\r'))
        .parse_next(input)?;
    let _ = " - ".parse_next(input)?;
    let relative = (
        alt(("今日".void(), "昨日".void(), ("先週 ", any, "曜日").void())),
        ' ',
        (digit1, ':', digit1),
    )
        .void();
    let absolute = (digit1, '/', digit1, '/', digit1).void();
    alt((relative, absolute)).parse_next(input)?;
    Ok(name)
}

fn winnow_copied_message<'s>(input: &mut &'s str) -> Result<(&'s str, &'s str), ContextError> {
    let name = winnow_plate.parse_next(input)?;
    let body = repeat_till(0.., any.void(), peek(alt((winnow_plate.void(), eof.void()))))
        .map(|(_, _): ((), ())| ())
        .take()
        .parse_next(input)?;
    Ok((name, body.trim()))
}

fn winnow_copied(log: &str) -> Vec<(String, String)> {
    let mut rest = log.trim();
    let v: Vec<(&str, &str)> = repeat(0.., winnow_copied_message).parse_next(&mut rest).unwrap();
    v.into_iter().map(|(a, b)| (a.to_string(), b.to_string())).collect()
}

fn owned(v: Vec<(&str, &str)>) -> Vec<(String, String)> {
    v.into_iter().map(|(a, b)| (a.to_string(), b.to_string())).collect()
}

struct Lcg(u64);

impl Lcg {
    fn next(&mut self, n: usize) -> usize {
        self.0 = self.0.wrapping_mul(6364136223846793005).wrapping_add(1442695040888963407);
        ((self.0 >> 33) as usize) % n
    }
}

fn generate(rng: &mut Lcg, pieces: &[&str], max_len: usize) -> String {
    let len = rng.next(max_len);
    let mut s = String::new();
    for _ in 0..len {
        s.push_str(pieces[rng.next(pieces.len())]);
    }
    s
}

#[test]
fn html_reader_agrees_with_winnow() {
    let pieces = [
        "[main]", "[main]", ":", " ", "a", "Bob", "\n", "\u{3000}", "アリス", "[mai", "n]", ":x",
        "\t", "é", "[",
    ];
    let mut rng = Lcg(7);
    for _ in 0..4000 {
        let log = generate(&mut rng, &pieces, 14);
        assert_eq!(owned(analyse_html_log(&log).unwrap()), winnow_html(&log), "log: {:?}", log);
    }
}

#[test]
fn copied_reader_agrees_with_winnow() {
    let pieces = [
        "A", " - ", " - ", "今日", "昨日", "先週 ", "水", "曜日", " ", "12", ":", "/", "3", "\n",
        "\r", "x", "\u{3000}", "今", "-",
    ];
    let mut rng = Lcg(11);
    for _ in 0..6000 {
        let log = generate(&mut rng, &pieces, 16);
        assert_eq!(owned(analyse_copied_text_log(&log).unwrap()), winnow_copied(&log), "log: {:?}", log);
    }
}

#[test]
fn copied_reader_agrees_with_winnow_on_well_formed_logs() {
    let names = ["A", "Bob", "アリス", "a b", " x"];
    let stamps = ["今日 12:34", "昨日 1:5", "先週 月曜日 23:59", "2024/01/02", "1/2/3", "今日 12"];
    let bodies = ["hello", "\nline\nline\n", "", "x - y", "今日", "a - 1/2/3 b"];
    let mut rng = Lcg(3);
    for _ in 0..3000 {
        let n = rng.next(5);
        let mut log = String::new();
        for _ in 0..n {
            log.push_str(names[rng.next(names.len())]);
            log.push_str(" - ");
            log.push_str(stamps[rng.next(stamps.len())]);
            log.push_str(bodies[rng.next(bodies.len())]);
            log.push('\n');
        }
        assert_eq!(owned(analyse_copied_text_log(&log).unwrap()), winnow_copied(&log), "log: {:?}", log);
    }
}
