use moins::{Color, KeyEvent, Moins, PagerAction, PagerOptions, dispatch};

fn ten_lines() -> Vec<u8> {
    b"a\nb\nc\nd\ne\nf\ng\nh\ni\nj\n".to_vec()
}

#[test]
fn scroll_down_stops_at_the_last_window() {
    let content = ten_lines();
    // terminal height 6 leaves a window 4 rows high over 10 lines
    let mut pager = Moins::new(&content, 40, 6, None);
    assert_eq!(pager.top_line(), 0);
    assert_eq!(pager.total_lines(), 10);
    for _ in 0..100 {
        pager.scroll_down();
    }
    assert_eq!(pager.top_line(), 6);
}

#[test]
fn scroll_up_at_the_top_is_a_no_op() {
    let content = ten_lines();
    let mut pager = Moins::new(&content, 40, 6, None);
    for _ in 0..50 {
        pager.scroll_up();
    }
    assert_eq!(pager.top_line(), 0);
    pager.scroll_down();
    pager.scroll_up();
    pager.scroll_up();
    assert_eq!(pager.top_line(), 0);
}

#[test]
fn scrolling_down_then_up_returns_to_the_start() {
    let content = ten_lines();
    let mut pager = Moins::new(&content, 40, 6, None);
    for _ in 0..3 {
        pager.scroll_down();
    }
    assert_eq!(pager.top_line(), 3);
    for _ in 0..3 {
        pager.scroll_up();
    }
    assert_eq!(pager.top_line(), 0);
}

#[test]
fn short_content_never_scrolls() {
    let content = b"only\ntwo\n".to_vec();
    let mut pager = Moins::new(&content, 40, 10, None);
    for _ in 0..5 {
        pager.scroll_down();
    }
    assert_eq!(pager.top_line(), 0);
}

#[test]
fn visible_rows_show_the_window_from_the_top_line() {
    let content = ten_lines();
    let mut pager = Moins::new(&content, 40, 6, None);
    pager.scroll_down();
    pager.scroll_down();
    let rows = pager.visible_rows();
    assert_eq!(
        rows,
        vec![b"c".to_vec(), b"d".to_vec(), b"e".to_vec(), b"f".to_vec()]
    );
}

#[test]
fn visible_rows_at_the_bottom_cover_the_tail() {
    let content = b"a\nb\nc\n".to_vec();
    let pager = Moins::new(&content, 40, 7, None);
    let rows = pager.visible_rows();
    assert_eq!(rows, vec![b"a".to_vec(), b"b".to_vec(), b"c".to_vec()]);
}

#[test]
fn separator_spans_the_viewport_width() {
    let content = b"x\n".to_vec();
    let pager = Moins::new(&content, 12, 5, None);
    assert_eq!(pager.separator(), b"____________".to_vec());
}

#[test]
fn visible_rows_carry_the_highlighting() {
    let content = b"say peut once\n".to_vec();
    let options = PagerOptions {
        colors: vec![(b"peut".to_vec(), Color::Red)],
        search: false,
        line_number: false,
    };
    let pager = Moins::new(&content, 40, 5, Some(options));
    let rows = pager.visible_rows();
    let expected: Vec<u8> = [
        b"say ".to_vec(),
        b"\x1b[38;5;1m".to_vec(),
        b"peut".to_vec(),
        b"\x1b[39m".to_vec(),
        b" once".to_vec(),
    ]
    .concat();
    assert_eq!(rows[0], expected);
}

#[test]
fn keys_map_to_their_actions() {
    assert_eq!(dispatch(KeyEvent::Char('q')), PagerAction::Quit);
    assert_eq!(dispatch(KeyEvent::Char('j')), PagerAction::ScrollDown);
    assert_eq!(dispatch(KeyEvent::Char('k')), PagerAction::ScrollUp);
    assert_eq!(dispatch(KeyEvent::Down), PagerAction::ScrollDown);
    assert_eq!(dispatch(KeyEvent::Up), PagerAction::ScrollUp);
    assert_eq!(dispatch(KeyEvent::Char('x')), PagerAction::Ignore);
    assert_eq!(dispatch(KeyEvent::Other), PagerAction::Ignore);
}
