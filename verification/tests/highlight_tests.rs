use moins::Color;
use moins::highlight::{apply_term, render};

#[test]
fn a_single_occurrence_is_bracketed_once() {
    let line = b"hello world again".to_vec();
    let out = apply_term(&line, &b"world".to_vec(), &b"<".to_vec(), &b">".to_vec());
    assert_eq!(out, b"hello <world> again".to_vec());
}

#[test]
fn stripping_the_injected_sequences_restores_the_line() {
    let line = b"hello world again".to_vec();
    let out = apply_term(&line, &b"world".to_vec(), &b"<".to_vec(), &b">".to_vec());
    let stripped: Vec<u8> = out.iter().copied().filter(|b| *b != b'<' && *b != b'>').collect();
    assert_eq!(stripped, line);
}

#[test]
fn every_occurrence_is_bracketed() {
    let line = b"abcabcab".to_vec();
    let out = apply_term(&line, &b"ab".to_vec(), &b"[".to_vec(), &b"]".to_vec());
    assert_eq!(out, b"[ab]c[ab]c[ab]".to_vec());
}

#[test]
fn an_empty_term_changes_nothing() {
    let line = b"plain text".to_vec();
    let out = apply_term(&line, &Vec::new(), &b"<".to_vec(), &b">".to_vec());
    assert_eq!(out, line);
}

#[test]
fn rules_apply_in_their_given_order() {
    let line = b"one two".to_vec();
    let rules = vec![
        (b"one".to_vec(), b"A".to_vec()),
        (b"two".to_vec(), b"B".to_vec()),
    ];
    let out = render(&line, &rules, &b"R".to_vec());
    assert_eq!(out, b"AoneR BtwoR".to_vec());
}

#[test]
fn color_codes_are_ansi_foreground_sequences() {
    assert_eq!(Color::Black.get(), b"\x1b[38;5;0m".to_vec());
    assert_eq!(Color::Red.get(), b"\x1b[38;5;1m".to_vec());
    assert_eq!(Color::LightBlue.get(), b"\x1b[38;5;12m".to_vec());
    assert_eq!(Color::LightWhite.get(), b"\x1b[38;5;15m".to_vec());
    assert_eq!(Color::Reset.get(), b"\x1b[39m".to_vec());
}

#[test]
fn inline_matches_walk_their_own_line() {
    let mut m = moins::search::InlineMatches::new(3, vec![2, 9]);
    assert_eq!(m.next(), Some((2, 3)));
    assert_eq!(m.next(), Some((9, 3)));
    assert_eq!(m.next(), None);
    assert_eq!(m.prev(), Some((9, 3)));
    assert_eq!(m.prev(), Some((2, 3)));
    assert_eq!(m.prev(), None);
    assert_eq!(m.first(), (3, 3));
}
