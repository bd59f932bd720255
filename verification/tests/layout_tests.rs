use moins::layout::layout;

#[test]
fn splits_an_overflowing_line_once_at_the_width() {
    let content = b"0123456789".to_vec();
    let lines = layout(&content, 5);
    assert_eq!(lines, vec![b"01234".to_vec(), b"56789".to_vec()]);
}

#[test]
fn keeps_a_line_at_exactly_the_width_whole() {
    let content = b"01234".to_vec();
    let lines = layout(&content, 5);
    assert_eq!(lines, vec![b"01234".to_vec()]);
}

#[test]
fn empty_content_has_no_lines() {
    let content: Vec<u8> = Vec::new();
    let lines = layout(&content, 10);
    assert_eq!(lines.len(), 0);
}

#[test]
fn splits_on_newlines_and_drops_the_terminator() {
    let content = b"alpha\nbeta\n".to_vec();
    let lines = layout(&content, 20);
    assert_eq!(lines, vec![b"alpha".to_vec(), b"beta".to_vec()]);
}

#[test]
fn keeps_empty_lines_between_newlines() {
    let content = b"a\n\nb".to_vec();
    let lines = layout(&content, 20);
    assert_eq!(lines, vec![b"a".to_vec(), b"".to_vec(), b"b".to_vec()]);
}

#[test]
fn a_very_long_line_keeps_its_tail_in_the_second_segment() {
    let content = b"abcdefghijkl".to_vec();
    let lines = layout(&content, 4);
    assert_eq!(lines, vec![b"abcd".to_vec(), b"efghijkl".to_vec()]);
    let rebuilt: Vec<u8> = [lines[0].clone(), lines[1].clone()].concat();
    assert_eq!(rebuilt, content);
}

#[test]
fn wrapped_lines_concatenate_back_to_the_content() {
    let content = b"one line\nand a second, longer line\nshort".to_vec();
    let lines = layout(&content, 10);
    assert_eq!(
        lines,
        vec![
            b"one line".to_vec(),
            b"and a seco".to_vec(),
            b"nd, longer line".to_vec(),
            b"short".to_vec(),
        ]
    );
}
