//! Texts of the interface: titles, hints, panel layout and the pixel-art clock.
use vstd::prelude::*;
use vstd::string::StringExecFns;

use crate::cli::{chars_of, is_ascii_digit};
use crate::render::blockstack::{PieceColor, VisualState};
use crate::timer::SessionKind;

verus! {

/// The header text for a session of `kind` in `visual_state`.
pub open spec fn spec_title_text(kind: SessionKind, visual_state: VisualState) -> Seq<char> {
    match (kind, visual_state) {
        (SessionKind::Focus, VisualState::Paused) => "focus paused"@,
        (SessionKind::Break, VisualState::Paused) => "break paused"@,
        (SessionKind::Focus, VisualState::Completed) => "focus complete"@,
        (SessionKind::Break, VisualState::Completed) => "break complete"@,
        (SessionKind::Focus, VisualState::Running) => "focus"@,
        (SessionKind::Break, VisualState::Running) => "break"@,
    }
}

/// Maps session and visual states to appropriate header text strings.
pub fn title_text_for(kind: SessionKind, visual_state: VisualState) -> (t: &'static str)
    ensures
        t@ == spec_title_text(kind, visual_state),
{
    match (kind, visual_state) {
        (SessionKind::Focus, VisualState::Paused) => "focus paused",
        (SessionKind::Break, VisualState::Paused) => "break paused",
        (SessionKind::Focus, VisualState::Completed) => "focus complete",
        (SessionKind::Break, VisualState::Completed) => "break complete",
        (SessionKind::Focus, VisualState::Running) => "focus",
        (SessionKind::Break, VisualState::Running) => "break",
    }
}

/// The control hints for `visual_state`.
pub open spec fn spec_hint_text(visual_state: VisualState) -> Seq<char> {
    match visual_state {
        VisualState::Paused => "p resume   q quit"@,
        VisualState::Completed => "done, returning..."@,
        VisualState::Running => "p pause/resume   q quit"@,
    }
}

/// Provides localized control hint descriptions for the UI footer.
pub fn hint_text_for(visual_state: VisualState) -> (t: &'static str)
    ensures
        t@ == spec_hint_text(visual_state),
{
    match visual_state {
        VisualState::Paused => "p resume   q quit",
        VisualState::Completed => "done, returning...",
        VisualState::Running => "p pause/resume   q quit",
    }
}

/// The name of the session mode shown in the status panel.
pub fn mode_text_for(kind: SessionKind) -> (t: &'static str)
    ensures
        kind == SessionKind::Focus ==> t@ == "FOCUS MODE"@,
        kind == SessionKind::Break ==> t@ == "BREAK MODE"@,
{
    match kind {
        SessionKind::Focus => "FOCUS MODE",
        SessionKind::Break => "BREAK MODE",
    }
}

/// The state shown in the status panel.
pub fn status_text_for(visual_state: VisualState) -> (t: &'static str)
    ensures
        visual_state == VisualState::Running ==> t@ == "PLAYING"@,
        visual_state == VisualState::Paused ==> t@ == "PAUSED"@,
        visual_state == VisualState::Completed ==> t@ == "DONE"@,
{
    match visual_state {
        VisualState::Running => "PLAYING",
        VisualState::Paused => "PAUSED",
        VisualState::Completed => "DONE",
    }
}

/// The colour of a session's borders, titles and clock: focus glows red, breaks cool down in cyan.
pub fn theme_color(kind: SessionKind) -> (c: PieceColor)
    ensures
        kind == SessionKind::Focus ==> c == PieceColor::Red,
        kind == SessionKind::Break ==> c == PieceColor::Cyan,
{
    match kind {
        SessionKind::Focus => PieceColor::Red,
        SessionKind::Break => PieceColor::Cyan,
    }
}

/// A rectangle of terminal cells: its top-left corner and its size.
#[derive(Debug, Clone, Copy, PartialEq, Eq, Structural)]
pub struct Rect {
    pub x: u16,
    pub y: u16,
    pub width: u16,
    pub height: u16,
}

/// The lesser of `a` and `b`.
pub open spec fn min_u16(a: u16, b: u16) -> u16 {
    if a <= b {
        a
    } else {
        b
    }
}

/// The rectangle of at most `max_width` by `max_height` cells centred in `area`
/// (rounding towards the top left); `area` itself where it is empty.
pub open spec fn spec_centered_rect(area: Rect, max_width: u16, max_height: u16) -> Rect {
    if area.width == 0 || area.height == 0 {
        area
    } else {
        let width = min_u16(area.width, max_width);
        let height = min_u16(area.height, max_height);
        Rect {
            x: (area.x + (area.width - width) / 2) as u16,
            y: (area.y + (area.height - height) / 2) as u16,
            width,
            height,
        }
    }
}

/// Utility for calculating a centered bounding rectangle within a parent area,
/// used primarily for overlaying the Game Over notification.
pub fn centered_rect(area: Rect, max_width: u16, max_height: u16) -> (r: Rect)
    requires
        area.width == 0 || area.height == 0 || (area.x + (area.width - min_u16(area.width, max_width))
            / 2 <= u16::MAX && area.y + (area.height - min_u16(area.height, max_height)) / 2
            <= u16::MAX),
    ensures
        r == spec_centered_rect(area, max_width, max_height),
{
    if area.width == 0 || area.height == 0 {
        return area;
    }

    let width = if area.width <= max_width {
        area.width
    } else {
        max_width
    };
    let height = if area.height <= max_height {
        area.height
    } else {
        max_height
    };
    let x = area.x + area.width.saturating_sub(width) / 2;
    let y = area.y + area.height.saturating_sub(height) / 2;

    Rect { x, y, width, height }
}

/// Row `i` of the 3-cell-wide pixel font for glyph `g` (digits 0-9, then 10 for `:`).
pub open spec fn spec_font_row(g: nat, i: nat) -> Seq<char> {
    if g == 0 {
        seq!["███"@, "█ █"@, "█ █"@, "█ █"@, "███"@][i as int]
    } else if g == 1 {
        seq![" █ "@, "██ "@, " █ "@, " █ "@, "███"@][i as int]
    } else if g == 2 {
        seq!["███"@, "  █"@, "███"@, "█  "@, "███"@][i as int]
    } else if g == 3 {
        seq!["███"@, "  █"@, "███"@, "  █"@, "███"@][i as int]
    } else if g == 4 {
        seq!["█ █"@, "█ █"@, "███"@, "  █"@, "  █"@][i as int]
    } else if g == 5 {
        seq!["███"@, "█  "@, "███"@, "  █"@, "███"@][i as int]
    } else if g == 6 {
        seq!["███"@, "█  "@, "███"@, "█ █"@, "███"@][i as int]
    } else if g == 7 {
        seq!["███"@, "  █"@, "  █"@, "  █"@, "  █"@][i as int]
    } else if g == 8 {
        seq!["███"@, "█ █"@, "███"@, "█ █"@, "███"@][i as int]
    } else if g == 9 {
        seq!["███"@, "█ █"@, "███"@, "  █"@, "███"@][i as int]
    } else {
        seq!["   "@, " █ "@, "   "@, " █ "@, "   "@][i as int]
    }
}

/// The pixels of glyph `g` (digits 0-9, then 10 for `:`), one number per row
/// from the top, whose three bits from the most significant down are the
/// row's pixels from the left: a set bit is a block.
pub open spec fn glyph_bits(g: nat) -> Seq<nat> {
    if g == 0 {
        seq![7, 5, 5, 5, 7]
    } else if g == 1 {
        seq![2, 6, 2, 2, 7]
    } else if g == 2 {
        seq![7, 1, 7, 4, 7]
    } else if g == 3 {
        seq![7, 1, 7, 1, 7]
    } else if g == 4 {
        seq![5, 5, 7, 1, 1]
    } else if g == 5 {
        seq![7, 4, 7, 1, 7]
    } else if g == 6 {
        seq![7, 4, 7, 5, 7]
    } else if g == 7 {
        seq![7, 1, 1, 1, 1]
    } else if g == 8 {
        seq![7, 5, 7, 5, 7]
    } else if g == 9 {
        seq![7, 5, 7, 1, 7]
    } else {
        seq![0, 2, 0, 2, 0]
    }
}

/// Whether pixel `j` (from the left, below 3) of row `i` of glyph `g` is a block.
pub open spec fn glyph_pixel(g: nat, i: nat, j: nat) -> bool {
    let bits = glyph_bits(g)[i as int];
    if j == 0 {
        bits >= 4
    } else if j == 1 {
        bits % 4 >= 2
    } else {
        bits % 2 == 1
    }
}

/// The text of a pixel: a full block or a space.
pub open spec fn pixel_char(on: bool) -> char {
    if on {
        '█'
    } else {
        ' '
    }
}

proof fn lemma_font_literals()
    ensures
        "███"@ == seq!['█', '█', '█'],
        "█ █"@ == seq!['█', ' ', '█'],
        " █ "@ == seq![' ', '█', ' '],
        "██ "@ == seq!['█', '█', ' '],
        "  █"@ == seq![' ', ' ', '█'],
        "█  "@ == seq!['█', ' ', ' '],
        "   "@ == seq![' ', ' ', ' '],
{
    reveal_strlit("███");
    reveal_strlit("█ █");
    reveal_strlit(" █ ");
    reveal_strlit("██ ");
    reveal_strlit("  █");
    reveal_strlit("█  ");
    reveal_strlit("   ");
    assert("███"@ =~= seq!['█', '█', '█']);
    assert("█ █"@ =~= seq!['█', ' ', '█']);
    assert(" █ "@ =~= seq![' ', '█', ' ']);
    assert("██ "@ =~= seq!['█', '█', ' ']);
    assert("  █"@ =~= seq![' ', ' ', '█']);
    assert("█  "@ =~= seq!['█', ' ', ' ']);
    assert("   "@ =~= seq![' ', ' ', ' ']);
}

/// Each row of each glyph of the clock font is three pixels, a block or a space,
/// as `glyph_bits` draws them: the digits 0-9 and the colon of a digital clock.
pub proof fn law_font_pixels(g: nat, i: nat)
    requires
        g <= 10,
        i < 5,
    ensures
        spec_font_row(g, i).len() == 3,
        forall|j: nat| j < 3 ==> #[trigger] spec_font_row(g, i)[j as int] == pixel_char(glyph_pixel(g, i, j)),
{
    lemma_font_literals();
    assert(spec_font_row(g, i) =~= seq![
        pixel_char(glyph_pixel(g, i, 0)),
        pixel_char(glyph_pixel(g, i, 1)),
        pixel_char(glyph_pixel(g, i, 2)),
    ]);
}

/// No two digits of the clock font look alike: for two different digits some
/// row of their glyphs differs, so clock texts with different digits are drawn
/// differently.
pub proof fn law_digit_glyphs_differ(g1: nat, g2: nat)
    requires
        g1 < 10,
        g2 < 10,
        g1 != g2,
    ensures
        exists|i: nat| i < 5 && #[trigger] spec_font_row(g1, i) != spec_font_row(g2, i),
{
    let a = glyph_bits(g1);
    let b = glyph_bits(g2);
    assert(a[0] != b[0] || a[1] != b[1] || a[2] != b[2] || a[3] != b[3] || a[4] != b[4]);
    let i: nat = if a[0] != b[0] {
        0
    } else if a[1] != b[1] {
        1
    } else if a[2] != b[2] {
        2
    } else if a[3] != b[3] {
        3
    } else {
        4
    };
    assert(a[i as int] < 8 && b[i as int] < 8);
    let j: nat = if glyph_pixel(g1, i, 0) != glyph_pixel(g2, i, 0) {
        0
    } else if glyph_pixel(g1, i, 1) != glyph_pixel(g2, i, 1) {
        1
    } else {
        2
    };
    assert(glyph_pixel(g1, i, j) != glyph_pixel(g2, i, j));
    law_font_pixels(g1, i);
    law_font_pixels(g2, i);
    assert(spec_font_row(g1, i)[j as int] != spec_font_row(g2, i)[j as int]);
}

/// Row `i` of the pixel font for glyph `g`.
fn font_row(g: usize, i: usize) -> (t: &'static str)
    requires
        g <= 10,
        i < 5,
    ensures
        t@ == spec_font_row(g as nat, i as nat),
{
    let rows: [&'static str; 5] = if g == 0 {
        ["███", "█ █", "█ █", "█ █", "███"]
    } else if g == 1 {
        [" █ ", "██ ", " █ ", " █ ", "███"]
    } else if g == 2 {
        ["███", "  █", "███", "█  ", "███"]
    } else if g == 3 {
        ["███", "  █", "███", "  █", "███"]
    } else if g == 4 {
        ["█ █", "█ █", "███", "  █", "  █"]
    } else if g == 5 {
        ["███", "█  ", "███", "  █", "███"]
    } else if g == 6 {
        ["███", "█  ", "███", "█ █", "███"]
    } else if g == 7 {
        ["███", "  █", "  █", "  █", "  █"]
    } else if g == 8 {
        ["███", "█ █", "███", "█ █", "███"]
    } else if g == 9 {
        ["███", "█ █", "███", "  █", "███"]
    } else {
        ["   ", " █ ", "   ", " █ ", "   "]
    };
    rows[i]
}

/// The font glyph of `c`: its digit value, 10 for `:`, none for other characters.
pub open spec fn glyph_index(c: char) -> Option<nat> {
    if is_ascii_digit(c) {
        Some(((c as u32) - ('0' as u32)) as nat)
    } else if c == ':' {
        Some(10)
    } else {
        None
    }
}

/// Row `i` of the pixel-art rendering of `t`: for each digit or `:`, its font
/// row and a space; other characters are skipped.
pub open spec fn pixel_row(t: Seq<char>, i: nat) -> Seq<char>
    decreases t.len(),
{
    if t.len() == 0 {
        seq![]
    } else {
        let prev = pixel_row(t.drop_last(), i);
        match glyph_index(t.last()) {
            Some(g) => prev + spec_font_row(g, i) + " "@,
            None => prev,
        }
    }
}

/// Whether every character of `t` is a digit or `:`, which the clock font draws.
pub open spec fn clock_chars(t: Seq<char>) -> bool {
    forall|p: int| 0 <= p < t.len() ==> (#[trigger] glyph_index(t[p])) is Some
}

/// Row `i` of the pixel-art rendering of a clock text draws each character in
/// turn as four cells: the three pixels of its glyph's row, then a space.
pub proof fn law_pixel_row_draws_each_glyph(t: Seq<char>, i: nat)
    requires
        i < 5,
        clock_chars(t),
    ensures
        pixel_row(t, i).len() == 4 * t.len(),
        forall|p: int, j: int|
            0 <= p < t.len() && 0 <= j < 3 ==> #[trigger] pixel_row(t, i)[4 * p + j] == pixel_char(
                glyph_pixel(glyph_index(#[trigger] t[p])->0, i, j as nat),
            ),
        forall|p: int| 0 <= p < t.len() ==> #[trigger] pixel_row(t, i)[4 * p + 3] == ' ',
    decreases t.len(),
{
    if t.len() > 0 {
        let u = t.drop_last();
        assert(clock_chars(u)) by {
            assert forall|p: int| 0 <= p < u.len() implies (#[trigger] glyph_index(u[p])) is Some by {
                assert(u[p] == t[p]);
                assert(glyph_index(t[p]) is Some);
            }
        }
        law_pixel_row_draws_each_glyph(u, i);
        let last = t.len() - 1;
        assert(glyph_index(t[last]) is Some);
        assert(t.last() == t[last]);
        let g = glyph_index(t.last())->0;
        assert(g <= 10);
        law_font_pixels(g, i);
        reveal_strlit(" ");
        let prev = pixel_row(u, i);
        let row = prev + spec_font_row(g, i) + " "@;
        assert(pixel_row(t, i) == row);
        assert forall|p: int, j: int| 0 <= p < t.len() && 0 <= j < 3 implies #[trigger] pixel_row(t, i)[4
            * p + j] == pixel_char(glyph_pixel(glyph_index(#[trigger] t[p])->0, i, j as nat)) by {
            if p < last {
                assert(u[p] == t[p]);
                assert(row[4 * p + j] == prev[4 * p + j]);
            } else {
                assert(row[4 * p + j] == spec_font_row(g, i)[j]);
            }
        }
        assert forall|p: int| 0 <= p < t.len() implies #[trigger] pixel_row(t, i)[4 * p + 3] == ' ' by {
            if p < last {
                assert(row[4 * p + 3] == prev[4 * p + 3]);
            } else {
                assert(row[4 * p + 3] == " "@[0]);
            }
        }
    }
}

/// Translates a raw time string (e.g., "12:59") into the 5 rows of a
/// pixel-art countdown clock.
pub fn render_pixel_digits(text: &str) -> (lines: Vec<String>)
    ensures
        lines@.len() == 5,
        forall|i: int| 0 <= i < 5 ==> (#[trigger] lines@[i])@ == pixel_row(text@, i as nat),
{
    let chars = chars_of(text);
    let mut rows: Vec<String> = Vec::new();
    let mut i: usize = 0;
    while i < 5
        invariant
            i <= 5,
            chars@ == text@,
            rows@.len() == i,
            forall|j: int| 0 <= j < i ==> (#[trigger] rows@[j])@ == pixel_row(text@, j as nat),
        decreases 5 - i,
    {
        let mut line = String::new();
        let n = chars.len();
        let mut k: usize = 0;
        while k < n
            invariant
                i < 5,
                k <= n,
                n == chars@.len(),
                line@ == pixel_row(chars@.take(k as int), i as nat),
            decreases n - k,
        {
            let c = chars[k];
            assert(chars@.take(k + 1).drop_last() =~= chars@.take(k as int));
            if '0' <= c && c <= '9' {
                line.append(font_row((c as u32 - '0' as u32) as usize, i));
                line.append(" ");
            } else if c == ':' {
                line.append(font_row(10, i));
                line.append(" ");
            }
            k = k + 1;
        }
        assert(chars@.take(n as int) =~= chars@);
        rows.push(line);
        i = i + 1;
    }
    rows
}

/// Whether the whole screen of `width` by `height` cells gets a border.
pub fn show_outer_borders(width: u16, height: u16) -> (b: bool)
    ensures
        b <==> height >= 12 && width >= 35,
{
    height >= 12 && width >= 35
}

/// How large the clock in the side panel is drawn.
#[derive(Debug, Clone, Copy, PartialEq, Eq, Structural)]
pub enum ClockSize {
    /// Five rows of pixel digits.
    Giant,
    /// Three rows of pixel digits.
    Medium,
    /// One row of text.
    Small,
}

/// Which parts the side panel shows and how tall the clock is.
#[derive(Debug, Clone, Copy, PartialEq, Eq, Structural)]
pub struct SidePanel {
    /// Whether the clock has a border.
    pub show_time_borders: bool,
    pub clock_size: ClockSize,
    /// The rows the clock takes, with its border.
    pub clock_height: u16,
    /// Whether the status box (mode and state) is shown.
    pub show_status: bool,
    /// Whether the preview of the next piece is shown.
    pub show_next: bool,
    /// Whether the control hints are shown.
    pub show_controls: bool,
}

/// The side panel for an area of `width` by `height` cells: the clock's border
/// goes below 10 rows; the clock is giant, medium or small as the height allows
/// (small below 22 columns); the next piece needs 13 rows, the status 17 and
/// the hints 21.
pub open spec fn spec_side_panel(width: u16, height: u16) -> SidePanel {
    let show_time_borders = height >= 10;
    let b: u16 = if show_time_borders {
        2
    } else {
        0
    };
    let clock_size = if width < 22 {
        ClockSize::Small
    } else if height >= 5 + b {
        ClockSize::Giant
    } else if height >= 3 + b {
        ClockSize::Medium
    } else {
        ClockSize::Small
    };
    SidePanel {
        show_time_borders,
        clock_size,
        clock_height: match clock_size {
            ClockSize::Giant => (5 + b) as u16,
            ClockSize::Medium => (3 + b) as u16,
            ClockSize::Small => (1 + b) as u16,
        },
        show_status: height >= 17,
        show_next: height >= 13,
        show_controls: height >= 21,
    }
}

/// Decides which parts of the side panel to show in an area of `width` by `height` cells.
pub fn side_panel_layout(width: u16, height: u16) -> (p: SidePanel)
    ensures
        p == spec_side_panel(width, height),
{
    // Hide 'TIME' borders to reclaim 2 precious vertical rows if height is extremely tight
    let show_time_borders = height >= 10;
    let b_size: u16 = if show_time_borders {
        2
    } else {
        0
    };

    // Size required for text without borders: Giant(5), Medium(3), Small(1)
    let giant_h = 5 + b_size;
    let medium_h = 3 + b_size;

    let clock_size = if width < 22 {
        ClockSize::Small
    } else if height >= giant_h {
        ClockSize::Giant
    } else if height >= medium_h {
        ClockSize::Medium
    } else {
        ClockSize::Small
    };

    let clock_height = match clock_size {
        ClockSize::Giant => giant_h,
        ClockSize::Medium => medium_h,
        ClockSize::Small => 1 + b_size,
    };

    SidePanel {
        show_time_borders,
        clock_size,
        clock_height,
        show_status: height >= 17,
        show_next: height >= 13,
        show_controls: height >= 21,
    }
}

/// A row of the side panel: a box of a fixed number of terminal rows, or space
/// that takes what is left.
#[derive(Debug, Clone, Copy, PartialEq, Eq, Structural)]
pub enum PanelRow {
    Length(u16),
    Fill,
}

/// The rows of the side panel `p`, top to bottom: the status box (4 rows), the
/// clock, the preview of the next piece (6 rows), space, and the control hints
/// (4 rows), each where it is shown. The space keeps the clock at the top.
pub open spec fn spec_panel_rows(p: SidePanel) -> Seq<PanelRow> {
    (if p.show_status {
        seq![PanelRow::Length(4)]
    } else {
        Seq::<PanelRow>::empty()
    }) + seq![PanelRow::Length(p.clock_height)] + (if p.show_next {
        seq![PanelRow::Length(6)]
    } else {
        Seq::<PanelRow>::empty()
    }) + (if p.show_controls {
        seq![PanelRow::Fill, PanelRow::Length(4)]
    } else {
        seq![PanelRow::Fill]
    })
}

/// The rows of the side panel `p`, top to bottom.
pub fn panel_rows(p: &SidePanel) -> (v: Vec<PanelRow>)
    ensures
        v@ == spec_panel_rows(*p),
{
    let mut v: Vec<PanelRow> = Vec::new();
    if p.show_status {
        v.push(PanelRow::Length(4));
    }
    v.push(PanelRow::Length(p.clock_height));
    if p.show_next {
        v.push(PanelRow::Length(6));
    }
    v.push(PanelRow::Fill);
    if p.show_controls {
        v.push(PanelRow::Length(4));
    }
    assert(v@ =~= spec_panel_rows(*p));
    v
}


} // verus!
