//! A small terminal pager: fixed-width line layout, a scrolling viewport,
//! literal-term search with jump navigation, and color highlighting.
//!
//! The crate holds the pure core: turning raw text into display lines,
//! the scroll-position arithmetic, locating search-term occurrences, and
//! injecting color escape sequences. Terminal I/O stays outside; a driver
//! measures the terminal, feeds key events in, and writes the rendered
//! rows out.

pub mod highlight;
pub mod layout;
pub mod matching;
pub mod search;

use vstd::prelude::*;
use crate::highlight::{pairs_view, render, render_spec};
use crate::layout::{layout, layout_spec, sub_bytes, views_of};

verus! {

/// A highlight color, written to the terminal as an ANSI 256-color
/// foreground escape sequence.
#[derive(Clone, Copy)]
pub enum Color {
    Black,
    LightBlack,
    Blue,
    LightBlue,
    Cyan,
    LightCyan,
    Green,
    LightGreen,
    Magenta,
    LightMagenta,
    Red,
    LightRed,
    White,
    LightWhite,
    Yellow,
    LightYellow,
    Reset,
}

/// The ANSI palette index of a color; the reset pseudo-color has none and
/// stands apart.
pub open spec fn color_index(c: Color) -> int {
    match c {
        Color::Black => 0,
        Color::Red => 1,
        Color::Green => 2,
        Color::Yellow => 3,
        Color::Blue => 4,
        Color::Magenta => 5,
        Color::Cyan => 6,
        Color::White => 7,
        Color::LightBlack => 8,
        Color::LightRed => 9,
        Color::LightGreen => 10,
        Color::LightYellow => 11,
        Color::LightBlue => 12,
        Color::LightMagenta => 13,
        Color::LightCyan => 14,
        Color::LightWhite => 15,
        Color::Reset => 16,
    }
}

/// The decimal digits of a palette index below sixteen.
pub open spec fn palette_digits(n: int) -> Seq<u8> {
    if n < 10 {
        seq![(48 + n) as u8]
    } else {
        seq![49u8, (38 + n) as u8]
    }
}

/// The ANSI 256-color foreground sequence `ESC [ 38 ; 5 ; n m`.
pub open spec fn fg_code(n: int) -> Seq<u8> {
    seq![27u8, 91u8, 51u8, 56u8, 59u8, 53u8, 59u8] + palette_digits(n) + seq![109u8]
}

/// The ANSI foreground reset sequence `ESC [ 39 m`.
pub open spec fn reset_code() -> Seq<u8> {
    seq![27u8, 91u8, 51u8, 57u8, 109u8]
}

/// The escape sequence a color stands for.
pub open spec fn code_spec(c: Color) -> Seq<u8> {
    match c {
        Color::Reset => reset_code(),
        _ => fg_code(color_index(c)),
    }
}

impl Color {
    /// The escape sequence of this color, as bytes.
    pub fn get(&self) -> (r: Vec<u8>)
        ensures
            r@ == code_spec(*self),
    {
        match self {
            Color::Reset => {
                let mut v: Vec<u8> = Vec::new();
                v.push(27u8);
                v.push(91u8);
                v.push(51u8);
                v.push(57u8);
                v.push(109u8);
                proof {
                    assert(v@ =~= reset_code());
                }
                v
            },
            _ => {
                let n = self.palette_index();
                let mut v: Vec<u8> = Vec::new();
                v.push(27u8);
                v.push(91u8);
                v.push(51u8);
                v.push(56u8);
                v.push(59u8);
                v.push(53u8);
                v.push(59u8);
                if n < 10 {
                    v.push(48 + n);
                } else {
                    v.push(49u8);
                    v.push(38 + n);
                }
                v.push(109u8);
                proof {
                    assert(v@ =~= fg_code(color_index(*self)));
                }
                v
            },
        }
    }

    /// The palette index of this color.
    fn palette_index(&self) -> (r: u8)
        ensures
            r as int == color_index(*self),
            r <= 16,
    {
        match self {
            Color::Black => 0,
            Color::Red => 1,
            Color::Green => 2,
            Color::Yellow => 3,
            Color::Blue => 4,
            Color::Magenta => 5,
            Color::Cyan => 6,
            Color::White => 7,
            Color::LightBlack => 8,
            Color::LightRed => 9,
            Color::LightGreen => 10,
            Color::LightYellow => 11,
            Color::LightBlue => 12,
            Color::LightMagenta => 13,
            Color::LightCyan => 14,
            Color::LightWhite => 15,
            Color::Reset => 16,
        }
    }
}

/// The foreground reset sequence, as bytes.
pub fn reset_bytes() -> (r: Vec<u8>)
    ensures
        r@ == reset_code(),
{
    let mut v: Vec<u8> = Vec::new();
    v.push(27u8);
    v.push(91u8);
    v.push(51u8);
    v.push(57u8);
    v.push(109u8);
    proof {
        assert(v@ =~= reset_code());
    }
    v
}

/// Options for the pager. The color rules are an ordered list of
/// (term, color) pairs; highlighting applies them in this order, so the
/// order is part of the contract rather than an accident of a mapping.
pub struct PagerOptions {
    /// add color to the matching term
    pub colors: Vec<(Vec<u8>, Color)>,
    pub search: bool,
    pub line_number: bool,
}

/// The (term, color-start) byte rules of an ordered color list.
pub open spec fn rules_of(colors: Seq<(Vec<u8>, Color)>) -> Seq<(Seq<u8>, Seq<u8>)> {
    colors.map_values(|p: (Vec<u8>, Color)| (p.0@, code_spec(p.1)))
}

/// The rules carried by an optional configuration.
pub open spec fn opt_rules(options: Option<PagerOptions>) -> Seq<(Seq<u8>, Seq<u8>)> {
    match options {
        Some(o) => rules_of(o.colors@),
        None => Seq::empty(),
    }
}

/// The scroll cursor a fresh viewport starts with: the number of display
/// lines if they fall short of the height, clamped to the height above and
/// to one below.
pub open spec fn init_scroll(total: int, height: int) -> int {
    if total >= height {
        height
    } else if total == 0 {
        1
    } else {
        total
    }
}

/// One scroll-down transition of the top line: it advances by one display
/// line until the last full window is reached, then stays.
pub open spec fn down_step(top: int, max_top: int) -> int {
    if top < max_top {
        top + 1
    } else {
        top
    }
}

/// One scroll-up transition of the top line: it recedes by one display line
/// until the first line is at the top, then stays.
pub open spec fn up_step(top: int) -> int {
    if top > 0 {
        top - 1
    } else {
        0
    }
}

/// The top line after `k` scroll-down transitions.
pub open spec fn down_steps(top: int, max_top: int, k: nat) -> int
    decreases k,
{
    if k == 0 {
        top
    } else {
        down_step(down_steps(top, max_top, (k - 1) as nat), max_top)
    }
}

/// The top line after `k` scroll-up transitions.
pub open spec fn up_steps(top: int, k: nat) -> int
    decreases k,
{
    if k == 0 {
        top
    } else {
        up_step(up_steps(top, (k - 1) as nat))
    }
}

/// Scrolling down saturates: from a valid position, `k` transitions land at
/// `min(top + k, max_top)`, so once the bottom window is reached further
/// calls leave the top line unchanged however often they are repeated.
pub proof fn lemma_scroll_down_saturates(top: int, max_top: int, k: nat)
    requires
        0 <= top <= max_top,
    ensures
        down_steps(top, max_top, k) == if top + k <= max_top {
            top + k
        } else {
            max_top
        },
    decreases k,
{
    if k > 0 {
        lemma_scroll_down_saturates(top, max_top, (k - 1) as nat);
    }
}

/// Scrolling up saturates: `k` transitions land at `max(top - k, 0)`, so at
/// the top the operation is a no-op regardless of call count.
pub proof fn lemma_scroll_up_saturates(top: int, k: nat)
    requires
        top >= 0,
    ensures
        up_steps(top, k) == if top - k >= 0 {
            top - k
        } else {
            0
        },
    decreases k,
{
    if k > 0 {
        lemma_scroll_up_saturates(top, (k - 1) as nat);
    }
}

/// The pager core: the laid-out display lines, the viewport geometry, and
/// the scroll state. Terminal I/O stays with the caller, who renders the
/// rows this type hands out.
pub struct Moins {
    lines: Vec<Vec<u8>>,
    height: u16,
    width: u16,
    current_line: usize,
    scroll: usize,
    options: Option<PagerOptions>,
}

impl Moins {
    /// The display lines.
    pub closed spec fn view_lines(self) -> Seq<Seq<u8>> {
        views_of(self.lines@)
    }

    /// The index of the first visible display line.
    pub closed spec fn top(self) -> int {
        self.current_line as int
    }

    /// The height of the text window, in rows: the terminal height less the
    /// two chrome rows.
    pub closed spec fn vheight(self) -> int {
        self.height as int
    }

    /// The viewport width, in columns.
    pub closed spec fn vwidth(self) -> int {
        self.width as int
    }

    /// The terminal-row counter used for incremental scroll commands.
    pub closed spec fn scroll_pos(self) -> int {
        self.scroll as int
    }

    /// The configured highlight rules, in application order.
    pub closed spec fn rules(self) -> Seq<(Seq<u8>, Seq<u8>)> {
        opt_rules(self.options)
    }

    /// The largest valid top line: the last full window's first line, or
    /// zero when everything fits.
    pub open spec fn max_top(self) -> int {
        if self.view_lines().len() > self.vheight() {
            self.view_lines().len() - self.vheight()
        } else {
            0
        }
    }

    /// The viewport invariant: the top line never passes the last full
    /// window, and the scroll cursor stays within the text rows.
    pub open spec fn wf(self) -> bool {
        &&& 0 <= self.top() <= self.max_top()
        &&& 1 <= self.scroll_pos() <= self.vheight()
        &&& self.vheight() >= 1
    }

    /// What one display line looks like on screen: the line with every
    /// configured rule applied.
    pub open spec fn color_spec(self, line: Seq<u8>) -> Seq<u8> {
        render_spec(line, self.rules(), reset_code())
    }

    /// Builds the pager core: lays the content out for the terminal width
    /// and starts at the first line. Two terminal rows are reserved for the
    /// separator and the help line, so the window height is the terminal
    /// height less two.
    pub fn new(content: &Vec<u8>, width: u16, height: u16, options: Option<PagerOptions>) -> (r:
        Moins)
        requires
            height >= 3,
        ensures
            r.wf(),
            r.view_lines() == layout_spec(content@, width as int),
            r.top() == 0,
            r.vheight() == height - 2,
            r.vwidth() == width as int,
            r.scroll_pos() == init_scroll(layout_spec(content@, width as int).len() as int, height as int - 2),
            r.rules() == opt_rules(options),
    {
        let lines = layout(content, width as usize);
        let h = (height - 2) as usize;
        let total = lines.len();
        let scroll: usize = if total >= h {
            h
        } else if total == 0 {
            1
        } else {
            total
        };
        Moins { lines, height: height - 2, width, current_line: 0, scroll, options }
    }

    /// Applies the configured highlight rules to one line.
    pub fn color(&self, line: &Vec<u8>) -> (r: Vec<u8>)
        ensures
            r@ == self.color_spec(line@),
    {
        match &self.options {
            Some(o) => {
                let m = o.colors.len();
                let mut rules: Vec<(Vec<u8>, Vec<u8>)> = Vec::new();
                let mut k: usize = 0;
                while k < m
                    invariant
                        m == o.colors@.len(),
                        0 <= k <= m,
                        rules@.len() == k,
                        forall|j: int|
                            0 <= j < k ==> (#[trigger] rules@[j]).0@ == o.colors@[j].0@
                                && rules@[j].1@ == code_spec(o.colors@[j].1),
                    decreases m - k,
                {
                    let pair = &o.colors[k];
                    let term = sub_bytes(&pair.0, 0, pair.0.len());
                    let code = pair.1.get();
                    proof {
                        assert(term@ =~= o.colors@[k as int].0@);
                    }
                    rules.push((term, code));
                    k += 1;
                }
                proof {
                    assert forall|j: int|
                        0 <= j < m implies pairs_view(rules@)[j] == rules_of(o.colors@)[j] by {
                        assert(pairs_view(rules@)[j] == (rules@[j].0@, rules@[j].1@));
                        assert(rules_of(o.colors@)[j] == (
                            o.colors@[j].0@,
                            code_spec(o.colors@[j].1),
                        ));
                    }
                    assert(pairs_view(rules@) =~= rules_of(o.colors@));
                }
                let reset = reset_bytes();
                render(line, &rules, &reset)
            },
            None => {
                let r = sub_bytes(line, 0, line.len());
                proof {
                    assert(r@ =~= line@);
                }
                r
            },
        }
    }

    /// The lines of the visible window, each with its highlighting applied:
    /// the slice of display lines from the top line, at most one window
    /// high.
    pub fn visible_rows(&self) -> (r: Vec<Vec<u8>>)
        requires
            self.wf(),
        ensures
            r@.len() == if self.view_lines().len() < self.top() + self.vheight() {
                self.view_lines().len() - self.top()
            } else {
                self.vheight()
            },
            forall|i: int|
                0 <= i < r@.len() ==> #[trigger] r@[i]@ == self.color_spec(
                    self.view_lines()[self.top() + i],
                ),
    {
        let h = self.height as usize;
        let total = self.lines.len();
        proof {
            assert(self.top() <= self.view_lines().len());
        }
        let end = if total - self.current_line > h {
            self.current_line + h
        } else {
            total
        };
        let mut r: Vec<Vec<u8>> = Vec::new();
        let mut i = self.current_line;
        while i < end
            invariant
                self.wf(),
                h == self.vheight(),
                total == self.view_lines().len(),
                end == if total < self.top() + h {
                    total as int
                } else {
                    self.top() + h
                },
                self.current_line <= i <= end,
                r@.len() == i - self.current_line,
                forall|j: int|
                    0 <= j < r@.len() ==> #[trigger] r@[j]@ == self.color_spec(
                        self.view_lines()[self.top() + j],
                    ),
            decreases end - i,
        {
            let row = self.color(&self.lines[i]);
            r.push(row);
            i += 1;
        }
        r
    }

    /// Scrolls one line down: the top line advances unless the last full
    /// window is already shown, and the scroll cursor grows toward the
    /// window height.
    pub fn scroll_down(&mut self)
        requires
            old(self).wf(),
        ensures
            final(self).wf(),
            final(self).view_lines() == old(self).view_lines(),
            final(self).vheight() == old(self).vheight(),
            final(self).vwidth() == old(self).vwidth(),
            final(self).rules() == old(self).rules(),
            final(self).top() == down_step(old(self).top(), old(self).max_top()),
            final(self).scroll_pos() == if old(self).scroll_pos() < old(self).vheight() {
                old(self).scroll_pos() + 1
            } else {
                old(self).scroll_pos()
            },
    {
        let h = self.height as usize;
        if self.scroll < h {
            self.scroll = self.scroll + 1;
        }
        let total = self.lines.len();
        if total < h {
            self.current_line = 0;
        } else if self.current_line == total - h {
        } else {
            self.current_line = self.current_line + 1;
        }
    }

    /// Scrolls one line up: the top line recedes unless the first line is
    /// already at the top, and the scroll cursor shrinks toward one.
    pub fn scroll_up(&mut self)
        requires
            old(self).wf(),
        ensures
            final(self).wf(),
            final(self).view_lines() == old(self).view_lines(),
            final(self).vheight() == old(self).vheight(),
            final(self).vwidth() == old(self).vwidth(),
            final(self).rules() == old(self).rules(),
            final(self).top() == up_step(old(self).top()),
            final(self).scroll_pos() == if old(self).scroll_pos() > 1 {
                old(self).scroll_pos() - 1
            } else {
                old(self).scroll_pos()
            },
    {
        if self.scroll > 1 {
            self.scroll = self.scroll - 1;
        }
        if self.current_line > 0 {
            self.current_line = self.current_line - 1;
        }
    }

    /// The index of the first visible display line.
    pub fn top_line(&self) -> (r: usize)
        ensures
            r as int == self.top(),
    {
        self.current_line
    }

    /// The terminal-row counter for footer placement and incremental scroll
    /// commands.
    pub fn scroll_cursor(&self) -> (r: usize)
        ensures
            r as int == self.scroll_pos(),
    {
        self.scroll
    }

    /// The number of display lines.
    pub fn total_lines(&self) -> (r: usize)
        ensures
            r as int == self.view_lines().len(),
    {
        self.lines.len()
    }

    /// The full-width separator row drawn under the text window.
    pub fn separator(&self) -> (r: Vec<u8>)
        ensures
            r@.len() == self.vwidth(),
            forall|i: int| 0 <= i < r@.len() ==> r@[i] == 95u8,
    {
        let w = self.width as usize;
        let mut r: Vec<u8> = Vec::new();
        let mut i: usize = 0;
        while i < w
            invariant
                0 <= i <= w,
                r@.len() == i,
                forall|j: int| 0 <= j < r@.len() ==> r@[j] == 95u8,
            decreases w - i,
        {
            r.push(95u8);
            i += 1;
        }
        r
    }
}

/// A key event, as the driver decodes it from the terminal.
#[derive(Clone, Copy)]
pub enum KeyEvent {
    Char(char),
    Up,
    Down,
    Other,
}

/// What the pager does with a key.
#[derive(Clone, Copy, PartialEq, Eq, Structural, Debug)]
pub enum PagerAction {
    Quit,
    ScrollDown,
    ScrollUp,
    Ignore,
}

/// The key bindings: `q` quits, `j` and the down arrow scroll down, `k` and
/// the up arrow scroll up, and every other key is ignored.
pub open spec fn action_spec(k: KeyEvent) -> PagerAction {
    match k {
        KeyEvent::Char(c) => if c == 'q' {
            PagerAction::Quit
        } else if c == 'j' {
            PagerAction::ScrollDown
        } else if c == 'k' {
            PagerAction::ScrollUp
        } else {
            PagerAction::Ignore
        },
        KeyEvent::Down => PagerAction::ScrollDown,
        KeyEvent::Up => PagerAction::ScrollUp,
        KeyEvent::Other => PagerAction::Ignore,
    }
}

/// Decides what one key event does to the pager.
pub fn dispatch(k: KeyEvent) -> (r: PagerAction)
    ensures
        r == action_spec(k),
{
    match k {
        KeyEvent::Char(c) => {
            if c == 'q' {
                PagerAction::Quit
            } else if c == 'j' {
                PagerAction::ScrollDown
            } else if c == 'k' {
                PagerAction::ScrollUp
            } else {
                PagerAction::Ignore
            }
        },
        KeyEvent::Down => PagerAction::ScrollDown,
        KeyEvent::Up => PagerAction::ScrollUp,
        KeyEvent::Other => PagerAction::Ignore,
    }
}

} // verus!

