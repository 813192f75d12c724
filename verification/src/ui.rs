//! What is painted where: the screens of the reader as lists of placed and
//! styled pieces of text.

use vstd::prelude::*;

use crate::clock::date_text;
use crate::message::Message;
use crate::text::{
    chars_of, decimal, lines, matches_at, occurs_at, push_decimal, push_range, push_repeated,
    repeated, split_lines, string_of, texts, views,
};

verus! {

/// First row below the header bar: where every view's content starts.
pub const CONTENT_TOP: u16 = 1;

/// List row layout: a date fits in 16, a display name in 24.
pub const DATE_W: usize = 16;

pub const AUTHOR_W: usize = 24;

/// What a patch hangs under its series head by.
pub open spec fn indent_mark() -> Seq<char> {
    "  ↳ "@
}

/// The foreground colors of a diff.
#[derive(Clone, Copy, Debug, PartialEq, Eq, Structural)]
pub enum Color {
    Cyan,
    Green,
    Red,
}

/// How a piece of text is painted.
#[derive(Clone, Copy, Debug, PartialEq, Eq, Structural)]
pub enum Style {
    Plain,
    Bold,
    /// The bar at the top: bold, white on dark blue.
    Header,
    /// The bar at the bottom: white on dark grey.
    Bar,
    /// The selected row: white on blue.
    Selected,
    /// A line of a diff.
    Tinted(Color),
}

/// A piece of text, and where on the screen it starts.
#[derive(Debug)]
pub struct Span {
    pub x: u16,
    pub y: u16,
    pub text: String,
    pub style: Style,
}

/// What a span shows.
pub struct Mark {
    pub x: int,
    pub y: int,
    pub text: Seq<char>,
    pub style: Style,
}

impl View for Span {
    type V = Mark;

    open spec fn view(&self) -> Mark {
        Mark { x: self.x as int, y: self.y as int, text: self.text@, style: self.style }
    }
}

/// What a list of spans shows, in the order in which it is painted.
pub open spec fn marks(v: Seq<Span>) -> Seq<Mark> {
    Seq::new(v.len(), |i: int| v[i]@)
}

// ---------------------------------------------------------------------------
// Widths
// ---------------------------------------------------------------------------

/// The first `w` characters of `s`.
pub open spec fn cut(s: Seq<char>, w: int) -> Seq<char> {
    if s.len() <= w {
        s
    } else {
        s.take(w)
    }
}

/// `s` with spaces behind it, up to a width of `w`.
pub open spec fn widened(s: Seq<char>, w: int) -> Seq<char> {
    s + repeated(' ', w - s.len())
}

/// `s` cut or widened to a width of exactly `w`.
pub open spec fn fitted(s: Seq<char>, w: int) -> Seq<char> {
    widened(cut(s, w), w)
}

/// `n` in decimal with zeros before it, up to a width of `w`.
pub open spec fn zero_padded(n: nat, w: int) -> Seq<char> {
    repeated('0', w - decimal(n).len()) + decimal(n)
}

/// Cut `s` to `w` columns.
pub fn truncate(s: &str, w: usize) -> (r: String)
    ensures
        r@ == cut(s@, w as int),
        r@.len() <= w,
{
    let all = chars_of(s);
    let end = if w < all.len() { w } else { all.len() };
    let mut out = String::new();
    push_range(&mut out, &all, 0, end);
    assert(out@ =~= cut(s@, w as int));
    out
}

/// Writes spaces behind `out` until `used` characters have become `w`.
fn fill(out: &mut String, used: usize, w: usize)
    ensures
        final(out)@ == old(out)@ + repeated(' ', w - used),
{
    if used < w {
        push_repeated(out, ' ', w - used);
    } else {
        assert(out@ =~= out@ + repeated(' ', w - used));
    }
}

/// How many characters `s` has.
fn width(s: &str) -> (r: usize)
    ensures
        r == s@.len(),
{
    chars_of(s).len()
}

/// Cut `s` to `w` columns, padding with spaces when it falls short.
pub fn pad_or_truncate(s: &str, w: usize) -> (r: String)
    ensures
        r@ == fitted(s@, w as int),
        r@.len() == w,
{
    let mut out = truncate(s, w);
    let used = width(out.as_str());
    fill(&mut out, used, w);
    out
}

/// Width of the row number column: wide enough for the last mail on the page.
pub open spec fn number_width(offset: nat, page_count: nat) -> int {
    let n = decimal(offset + page_count).len() as int;
    if n < 3 {
        3
    } else {
        n
    }
}

/// Width of the row number column: wide enough for the last mail on the page.
pub fn index_width(offset: usize, page_count: usize) -> (r: usize)
    requires
        offset + page_count <= usize::MAX,
    ensures
        r == number_width(offset as nat, page_count as nat),
        r <= 20,
{
    let mut digits = String::new();
    push_decimal(&mut digits, (offset + page_count) as u64);
    proof {
        lemma_decimal_width((offset + page_count) as nat);
    }
    assert(digits@ =~= decimal((offset + page_count) as nat));
    let n = width(digits.as_str());
    if n < 3 {
        3
    } else {
        n
    }
}

/// Ten to the power of `n`.
pub open spec fn power_of_ten(n: nat) -> nat
    decreases n,
{
    if n == 0 {
        1
    } else {
        10 * power_of_ten((n - 1) as nat)
    }
}

/// A number below a power of ten has no more digits than its exponent.
proof fn lemma_digits(n: nat, k: nat)
    requires
        k >= 1,
        n < power_of_ten(k),
    ensures
        1 <= decimal(n).len() <= k,
    decreases n,
{
    if n >= 10 {
        if k == 1 {
            assert(power_of_ten(1) == 10) by {
                reveal_with_fuel(power_of_ten, 2);
            }
        } else {
            assert(power_of_ten(k) == 10 * power_of_ten((k - 1) as nat));
            lemma_digits(n / 10, (k - 1) as nat);
        }
    }
}

/// A machine number has at most twenty digits.
proof fn lemma_decimal_width(n: nat)
    requires
        n <= u64::MAX,
    ensures
        1 <= decimal(n).len() <= 20,
{
    assert(power_of_ten(20) == 100000000000000000000) by {
        reveal_with_fuel(power_of_ten, 21);
    }
    lemma_digits(n, 20);
}

/// Width of the subject column for a row of the current page.
pub open spec fn subject_width(cols: nat, offset: nat, page_count: nat, indented: bool) -> int {
    let used = 6 + number_width(offset, page_count) + DATE_W + AUTHOR_W + 1 + (if indented {
        indent_mark().len() as int
    } else {
        0
    });
    if cols < used {
        0
    } else {
        cols - used
    }
}

/// Width of the subject column for a row of the current page. The one place
/// the row layout is worked out: a row is rendered against it, and the marquee
/// tick asks it whether a title overflows without re-rendering.
pub fn subject_column_width(cols: u16, offset: usize, page_count: usize, indented: bool) -> (r:
    usize)
    requires
        offset + page_count <= usize::MAX,
    ensures
        r == subject_width(cols as nat, offset as nat, page_count as nat, indented),
{
    proof {
        reveal_strlit("  ↳ ");
    }
    let prefix_w: usize = 6 + index_width(offset, page_count) + DATE_W;
    let indent_w: usize = if indented { 4 } else { 0 };
    (cols as usize).saturating_sub(prefix_w + AUTHOR_W + 1 + indent_w)
}

/// Whether the title of a row is wider than the subject column.
pub fn title_overflows(
    cols: u16,
    mail: &Message,
    offset: usize,
    page_count: usize,
    indented: bool,
) -> (r: bool)
    requires
        offset + page_count <= usize::MAX,
    ensures
        r == (mail.subject@.len() > subject_width(
            cols as nat,
            offset as nat,
            page_count as nat,
            indented,
        )),
{
    width(mail.subject.as_str()) > subject_column_width(cols, offset, page_count, indented)
}

/// How many rows the content area of a window has, between the header bar and
/// the hotkey bar.
pub fn content_rows(rows: u16) -> (r: usize)
    ensures
        r == if rows >= 2 {
            rows - 2
        } else {
            0
        },
{
    rows.saturating_sub(1).saturating_sub(CONTENT_TOP) as usize
}

// ---------------------------------------------------------------------------
// Colors of a diff
// ---------------------------------------------------------------------------

/// `line` starts with `head`.
pub open spec fn starts_with(line: Seq<char>, head: Seq<char>) -> bool {
    occurs_at(line, head, 0)
}

/// `line` heads a hunk of a unified diff.
pub open spec fn heads_hunk(line: Seq<char>) -> bool {
    starts_with(line, "@@"@) && line.len() > 2 && (line[2] == ' ' || line[2] == '-')
}

/// `line` heads a file of a unified diff.
pub open spec fn heads_file(line: Seq<char>) -> bool {
    starts_with(line, "diff --git"@) || starts_with(line, "--- "@) || starts_with(line, "+++ "@)
}

/// Whether the diff region is open behind `line`, where it was or was not open
/// before it: the headers open it, and the first line that is not hunk content
/// closes it.
pub open spec fn region_after(line: Seq<char>, open: bool) -> bool {
    ||| heads_hunk(line)
    ||| heads_file(line)
    ||| {
        &&& open
        &&& line.len() > 0
        &&& line[0] == '+' || line[0] == '-' || line[0] == ' ' || line[0] == '\\'
    }
}

/// The color of `line`, where the diff region was or was not open before it.
pub open spec fn color_of(line: Seq<char>, open: bool) -> Option<Color> {
    let inside = open || heads_file(line);
    if heads_hunk(line) {
        Some(Color::Cyan)
    } else if inside && line.len() > 0 && line[0] == '+' {
        Some(Color::Green)
    } else if inside && line.len() > 0 && line[0] == '-' {
        Some(Color::Red)
    } else {
        None
    }
}

/// Whether the diff region is open before line `i` of a text.
pub open spec fn region_at(rows: Seq<Seq<char>>, i: nat) -> bool
    decreases i,
{
    if i == 0 {
        false
    } else {
        region_after(rows[i - 1], region_at(rows, (i - 1) as nat))
    }
}

/// Whether `line` starts with `head`.
fn has_head(line: &Vec<char>, head: &str) -> (r: bool)
    ensures
        r == starts_with(line@, head@),
{
    matches_at(line, &chars_of(head), 0)
}

/// Pick a foreground color for unified-diff lines so patches embedded in mails
/// render with the familiar red/green/cyan scheme. Coloring is gated on being
/// inside a `@@` hunk so prose (bullet lists starting with `-`, `+N` version
/// notes) isn't mistaken for a diff. `@@`/`diff --git`/`---`/`+++` headers open
/// the region; the first line that isn't hunk content closes it.
pub fn diff_line_color(line: &str, in_hunk: &mut bool) -> (r: Option<Color>)
    ensures
        r == color_of(line@, *old(in_hunk)),
        *final(in_hunk) == region_after(line@, *old(in_hunk)),
        r is Some ==> *final(in_hunk),
{
    let all = chars_of(line);
    line_color(&all, in_hunk)
}

/// The color of a line, with the state of the diff region carried on.
fn line_color(all: &Vec<char>, in_hunk: &mut bool) -> (r: Option<Color>)
    ensures
        r == color_of(all@, *old(in_hunk)),
        *final(in_hunk) == region_after(all@, *old(in_hunk)),
{
    if has_head(all, "@@") && all.len() > 2 && (all[2] == ' ' || all[2] == '-') {
        *in_hunk = true;
        return Some(Color::Cyan);
    }
    proof {
        reveal_strlit("diff --git");
        reveal_strlit("--- ");
        reveal_strlit("+++ ");
    }
    let heads = has_head(all, "diff --git") || has_head(all, "--- ") || has_head(all, "+++ ");
    if heads {
        *in_hunk = true;  // file headers precede the first @@ but belong to the patch
    }
    if all.len() == 0 {
        *in_hunk = false;
        return None;
    }
    let sign = all[0];
    if sign == '+' && *in_hunk {
        Some(Color::Green)
    } else if sign == '-' && *in_hunk {
        Some(Color::Red)
    } else if (sign == ' ' || sign == '\\') && *in_hunk {
        None  // context / "\ No newline"
    } else if sign == '+' || sign == '-' || heads {
        None
    } else {
        *in_hunk = false;
        None
    }
}

// ---------------------------------------------------------------------------
// Bars
// ---------------------------------------------------------------------------

/// What the header bar tells.
#[derive(Clone, Copy, Debug)]
pub struct HeaderInfo<'a> {
    pub list_name: &'a str,
    pub epoch_label: &'a str,
    pub page_label: &'a str,
    pub subject_filter: &'a str,
    pub author_filter: &'a str,
    pub date_filter: &'a str,
}

/// The text of the header bar.
pub open spec fn header_text(h: HeaderInfo) -> Seq<char> {
    " LKML Reader  —  list: "@ + h.list_name@ + "   epoch: "@ + h.epoch_label@ + "   page: "@
        + h.page_label@ + "   subject: "@ + h.subject_filter@ + "   author: "@ + h.author_filter@
        + "   date: "@ + h.date_filter@
}

/// The header bar.
pub open spec fn header_mark(h: HeaderInfo, cols: u16) -> Mark {
    Mark { x: 0, y: 0, text: fitted(header_text(h), cols as int), style: Style::Header }
}

/// The header bar.
fn draw_header(h: &HeaderInfo, cols: u16) -> (r: Span)
    ensures
        r@ == header_mark(*h, cols),
{
    let mut title = String::new();
    title.append(" LKML Reader  —  list: ");
    title.append(h.list_name);
    title.append("   epoch: ");
    title.append(h.epoch_label);
    title.append("   page: ");
    title.append(h.page_label);
    title.append("   subject: ");
    title.append(h.subject_filter);
    title.append("   author: ");
    title.append(h.author_filter);
    title.append("   date: ");
    title.append(h.date_filter);
    assert(title@ =~= header_text(*h));
    Span { x: 0, y: 0, text: pad_or_truncate(title.as_str(), cols as usize), style: Style::Header }
}

/// The last row of a window.
pub open spec fn last_row(rows: u16) -> int {
    if rows > 0 {
        rows - 1
    } else {
        0
    }
}

/// A bar with a text at the bottom of the window.
pub open spec fn bar_mark(text: Seq<char>, cols: u16, rows: u16) -> Mark {
    Mark {
        x: 0,
        y: last_row(rows),
        text: fitted(" "@ + text, cols as int),
        style: Style::Bar,
    }
}

/// The hotkey bar.
fn draw_hotkeys(hint: &str, cols: u16, rows: u16) -> (r: Span)
    ensures
        r@ == bar_mark(hint@, cols, rows),
{
    let text = " ".to_string().concat(hint);
    Span {
        x: 0,
        y: rows.saturating_sub(1),
        text: pad_or_truncate(text.as_str(), cols as usize),
        style: Style::Bar,
    }
}

/// A one-shot message on the bottom line, over whatever is up.
pub fn draw_notice(cols: u16, rows: u16, notice: &str) -> (r: Span)
    ensures
        r@ == bar_mark(notice@, cols, rows),
{
    draw_hotkeys(notice, cols, rows)
}

/// What a prompt shows of its label and the input so far: its end, where it is
/// wider than the window.
pub open spec fn prompt_tail(text: Seq<char>, cols: u16) -> Seq<char> {
    let w = last_row(cols);
    if text.len() > w {
        text.skip(text.len() - w)
    } else {
        text
    }
}

/// The line of a prompt. The line is cleared before it is painted, and the
/// cursor stays behind it.
pub fn redraw_prompt(cols: u16, label: &str, input: &str, y: u16) -> (r: Span)
    ensures
        r@ == (Mark {
            x: 0,
            y: y as int,
            text: prompt_tail(label@ + input@, cols),
            style: Style::Plain,
        }),
{
    let max_w = (cols as usize).saturating_sub(1);
    let combined = chars_of(label.to_string().concat(input).as_str());
    let total = combined.len();
    let mut text = String::new();
    if total > max_w {
        push_range(&mut text, &combined, total - max_w, total);
    } else {
        push_range(&mut text, &combined, 0, total);
    }
    assert(text@ =~= prompt_tail(label@ + input@, cols));
    Span { x: 0, y, text, style: Style::Plain }
}

/// A whole screen: header bar, `body` in the space between, hotkey bar. The
/// body is left out on a window too short to have one.
pub open spec fn framed(
    header: HeaderInfo,
    hint: Seq<char>,
    body: Seq<Mark>,
    cols: u16,
    rows: u16,
) -> Seq<Mark> {
    seq![header_mark(header, cols)] + (if last_row(rows) > CONTENT_TOP {
        body
    } else {
        seq![]
    }) + seq![bar_mark(hint, cols, rows)]
}

/// Puts a whole screen together. The body is left out on a window too short to
/// have one.
fn draw_frame(header: &HeaderInfo, hint: &str, body: Vec<Span>, cols: u16, rows: u16) -> (r: Vec<
    Span,
>)
    ensures
        marks(r@) == framed(*header, hint@, marks(body@), cols, rows),
{
    let mut out: Vec<Span> = Vec::new();
    out.push(draw_header(header, cols));
    let ghost inner = body@;
    let mut body = body;
    if rows.saturating_sub(1) > CONTENT_TOP {
        out.append(&mut body);
    }
    out.push(draw_hotkeys(hint, cols, rows));
    assert(marks(out@) =~= framed(*header, hint@, marks(inner), cols, rows));
    out
}

// ---------------------------------------------------------------------------
// The loading screen
// ---------------------------------------------------------------------------

/// A message in the middle of the content area.
pub open spec fn centered(text: Seq<char>, cols: u16, bottom: int) -> Mark {
    Mark {
        x: if text.len() < cols {
            (cols - text.len()) / 2
        } else {
            0
        },
        y: CONTENT_TOP + (bottom - CONTENT_TOP) / 2,
        text,
        style: Style::Bold,
    }
}

/// A message in the middle of the content area, whose first row past the end
/// is `bottom`.
fn draw_centered(message: String, cols: u16, bottom: u16) -> (r: Span)
    requires
        bottom > CONTENT_TOP,
    ensures
        r@ == centered(message@, cols, bottom as int),
{
    let y = CONTENT_TOP + (bottom - CONTENT_TOP) / 2;
    let used = width(message.as_str());
    let x = ((cols as usize).saturating_sub(used) / 2) as u16;
    Span { x, y, text: message, style: Style::Bold }
}

/// The loading screen.
pub open spec fn loading_screen(
    header: HeaderInfo,
    message: Seq<char>,
    cols: u16,
    rows: u16,
) -> Seq<Mark> {
    framed(header, ""@, seq![centered("⏳  "@ + message, cols, last_row(rows))], cols, rows)
}

/// The loading screen.
pub fn draw_loading(header: &HeaderInfo, message: &str, cols: u16, rows: u16) -> (r: Vec<Span>)
    ensures
        marks(r@) == loading_screen(*header, message@, cols, rows),
{
    let bottom = rows.saturating_sub(1);
    let mut body: Vec<Span> = Vec::new();
    if bottom > CONTENT_TOP {
        body.push(draw_centered("⏳  ".to_string().concat(message), cols, bottom));
        assert(marks(body@) =~= seq![centered("⏳  "@ + message@, cols, last_row(rows))]);
    }
    let r = draw_frame(header, "", body, cols, rows);
    assert(marks(r@) =~= loading_screen(*header, message@, cols, rows));
    r
}

// ---------------------------------------------------------------------------
// The list
// ---------------------------------------------------------------------------

/// A page of mails, and what of it is shown.
#[derive(Debug)]
pub struct ListView<'a> {
    pub header: HeaderInfo<'a>,
    /// Offset of the page's first mail in the stream; row numbering starts
    /// here.
    pub offset: usize,
    pub mails: &'a Vec<Message>,
    /// Per row: draw it indented under the series head above it.
    pub indent: &'a Vec<bool>,
    pub selected: usize,
    /// First row shown. A page that grew to hold a whole patch series can be
    /// taller than the window, so the list scrolls within the page.
    pub scroll: usize,
    /// Tick counter driving the marquee scroll on the selected row's title.
    pub selected_scroll: usize,
    pub empty_message: &'a Vec<String>,
}

/// The part of a title that a marquee shows after `ticks` steps: the title is
/// ringed with a gap, so that when its end passes the right edge of the column
/// its start reappears after the gap.
pub open spec fn marquee(title: Seq<char>, ticks: nat, w: nat) -> Seq<char> {
    let ring = title + "    "@;
    Seq::new(w, |i: int| ring[(ticks + i) % (ring.len() as int)])
}

/// What the subject column of a row shows.
pub open spec fn subject_text(title: Seq<char>, selected: bool, ticks: nat, w: int) -> Seq<char> {
    if selected && title.len() > w {
        marquee(title, ticks, w as nat)
    } else {
        cut(title, w)
    }
}

impl<'a> ListView<'a> {
    /// Every row has an indent flag, and every row number fits.
    pub open spec fn wf(self) -> bool {
        &&& self.indent@.len() == self.mails@.len()
        &&& self.offset + self.mails@.len() <= usize::MAX
    }

    /// The text of row `idx`, without its width cut to the window.
    pub open spec fn row_text(self, idx: int, cols: u16) -> Seq<char> {
        let mail = self.mails@[idx];
        let n = self.mails@.len();
        " ["@ + zero_padded(
            (self.offset + idx + 1) as nat,
            number_width(self.offset as nat, n),
        ) + "] "@ + widened(date_text(mail.date), DATE_W as int) + "  "@ + fitted(
            mail.author@,
            AUTHOR_W as int,
        ) + " "@ + (if self.indent@[idx] {
            indent_mark()
        } else {
            seq![]
        }) + subject_text(
            mail.subject@,
            idx == self.selected,
            self.selected_scroll as nat,
            subject_width(cols as nat, self.offset as nat, n, self.indent@[idx]),
        )
    }

    /// Row `idx`, at screen line `y`.
    pub open spec fn row_mark(self, idx: int, cols: u16, y: int) -> Mark {
        Mark {
            x: 0,
            y,
            text: fitted(self.row_text(idx, cols), cols as int),
            style: if idx == self.selected {
                Style::Selected
            } else {
                Style::Plain
            },
        }
    }

    /// How many rows are shown in a content area of `visible` lines.
    pub open spec fn shown(self, visible: int) -> int {
        let left = self.mails@.len() - self.scroll;
        if left < 0 {
            0
        } else if left < visible {
            left
        } else {
            visible
        }
    }

    /// What is shown in a content area that ends before the line `bottom`: the
    /// rows from the first one shown on, or, on a page without mails, what to
    /// say instead.
    pub open spec fn body(self, cols: u16, bottom: int) -> Seq<Mark> {
        if self.mails@.len() == 0 {
            Seq::new(
                fitting(self.empty_message@.len(), 2, bottom),
                |i: int|
                    Mark { x: 2, y: 2 + i, text: self.empty_message@[i]@, style: Style::Plain },
            )
        } else {
            Seq::new(
                self.shown(bottom - CONTENT_TOP) as nat,
                |i: int| self.row_mark(self.scroll + i, cols, CONTENT_TOP + i),
            )
        }
    }
}

/// How many of `n` lines fit from line `top` on, before the line `bottom`.
pub open spec fn fitting(n: nat, top: int, bottom: int) -> nat {
    if bottom <= top {
        0
    } else if n < bottom - top {
        n
    } else {
        (bottom - top) as nat
    }
}

/// The hint of the list.
pub open spec fn list_hint() -> Seq<char> {
    "↑/↓ select  ←/→ page  Enter view  r reply  p apply  / subject  a author  d date  u update  ? help  q quit"@
}

/// Writes `n` in decimal behind `out`, with zeros before it up to a width of
/// `w`.
pub(crate) fn push_zero_padded(out: &mut String, n: u64, w: usize)
    ensures
        final(out)@ == old(out)@ + zero_padded(n as nat, w as int),
{
    let ghost before = out@;
    let mut digits = String::new();
    push_decimal(&mut digits, n);
    assert(digits@ =~= decimal(n as nat));
    let used = width(digits.as_str());
    if used < w {
        push_repeated(out, '0', w - used);
    }
    out.append(digits.as_str());
    assert(out@ =~= before + zero_padded(n as nat, w as int));
}

/// Writes the part of a title that a marquee shows behind `out`.
fn push_marquee(out: &mut String, title: &str, ticks: usize, w: usize)
    ensures
        final(out)@ == old(out)@ + marquee(title@, ticks as nat, w as nat),
{
    let ghost before = out@;
    let ring = chars_of(title.to_string().concat("    ").as_str());
    let cycle = ring.len();
    proof {
        reveal_strlit("    ");
        assert(ring@ =~= title@ + "    "@);
    }
    let ghost goal = marquee(title@, ticks as nat, w as nat);
    let mut at = ticks % cycle;
    let mut i: usize = 0;
    assert(out@ =~= before + goal.take(0));
    while i < w
        invariant
            i <= w,
            cycle == ring.len(),
            cycle > 0,
            ring@ == title@ + "    "@,
            goal == marquee(title@, ticks as nat, w as nat),
            at == (ticks + i) % (cycle as int),
            out@ == before + goal.take(i as int),
        decreases w - i,
    {
        out.push(ring[at]);
        assert(goal.take(i + 1) =~= goal.take(i as int).push(goal[i as int]));
        assert(out@ =~= before + goal.take(i + 1));
        proof {
            lemma_next_place((ticks + i) as int, cycle as int);
        }
        at = if at + 1 == cycle { 0 } else { at + 1 };
        i += 1;
    }
    assert(goal.take(w as int) =~= goal);
}

proof fn lemma_next_place(n: int, cycle: int)
    requires
        cycle > 0,
        n >= 0,
    ensures
        0 <= n % cycle < cycle,
        (n + 1) % cycle == if n % cycle + 1 == cycle {
            0
        } else {
            n % cycle + 1
        },
{
    let q = n / cycle;
    let r = n % cycle;
    vstd::arithmetic::div_mod::lemma_fundamental_div_mod(n, cycle);
    vstd::arithmetic::div_mod::lemma_mod_bound(n, cycle);
    if r + 1 == cycle {
        assert(n + 1 == cycle * (q + 1) + 0) by (nonlinear_arith)
            requires
                n == cycle * q + r,
                r + 1 == cycle,
        ;
        vstd::arithmetic::div_mod::lemma_fundamental_div_mod_converse(n + 1, cycle, q + 1, 0);
    } else {
        assert(n + 1 == q * cycle + (r + 1)) by (nonlinear_arith)
            requires
                n == cycle * q + r,
        ;
        vstd::arithmetic::div_mod::lemma_fundamental_div_mod_converse(n + 1, cycle, q, r + 1);
    }
}

/// The row for `idx` at screen line `y`, with the marquee scroll applied when
/// it is the selected row.
fn queue_list_row(view: &ListView, idx: usize, cols: u16, y: u16) -> (r: Span)
    requires
        view.wf(),
        idx < view.mails@.len(),
    ensures
        r@ == view.row_mark(idx as int, cols, y as int),
{
    let mail = &view.mails[idx];
    let selected = idx == view.selected;
    let page_count = view.mails.len();
    let indented = view.indent[idx];
    let mut line = String::new();
    line.append(" [");
    push_zero_padded(
        &mut line,
        (view.offset + idx + 1) as u64,
        index_width(view.offset, page_count),
    );
    line.append("] ");
    let date = mail.date_str();
    line.append(date.as_str());
    fill(&mut line, width(date.as_str()), DATE_W);
    line.append("  ");
    line.append(pad_or_truncate(mail.author.as_str(), AUTHOR_W).as_str());
    line.append(" ");
    if indented {
        line.append("  ↳ ");
    }
    let subject_w = subject_column_width(cols, view.offset, page_count, indented);
    let title = mail.subject.as_str();
    if selected && width(title) > subject_w {
        push_marquee(&mut line, title, view.selected_scroll, subject_w);
    } else {
        line.append(truncate(title, subject_w).as_str());
    }
    assert(line@ =~= view.row_text(idx as int, cols));
    let style = if selected { Style::Selected } else { Style::Plain };
    Span { x: 0, y, text: pad_or_truncate(line.as_str(), cols as usize), style }
}

/// The rows of the list, or what to say instead, in a content area that ends
/// before the line `bottom`.
fn draw_list_body(view: &ListView, cols: u16, bottom: u16) -> (r: Vec<Span>)
    requires
        view.wf(),
        bottom > CONTENT_TOP,
    ensures
        marks(r@) == view.body(cols, bottom as int),
{
    let mut out: Vec<Span> = Vec::new();
    if view.mails.len() == 0 {
        let mut y: u16 = CONTENT_TOP + 1;
        let mut i: usize = 0;
        while i < view.empty_message.len() && y < bottom
            invariant
                y == 2 + i,
                y <= bottom || i == 0,
                i <= view.empty_message@.len(),
                out@.len() == i,
                i > 0 ==> y <= bottom,
                forall|j: int|
                    0 <= j < i ==> (#[trigger] out@[j])@ == (Mark {
                        x: 2,
                        y: 2 + j,
                        text: view.empty_message@[j]@,
                        style: Style::Plain,
                    }),
            decreases view.empty_message@.len() - i,
        {
            out.push(Span { x: 2, y, text: view.empty_message[i].clone(), style: Style::Plain });
            y += 1;
            i += 1;
        }
        assert(marks(out@) =~= view.body(cols, bottom as int));
        return out;
    }
    let n = view.mails.len();
    let mut idx = view.scroll;
    let mut y: u16 = CONTENT_TOP;
    while idx < n && y < bottom
        invariant
            view.wf(),
            n == view.mails@.len(),
            CONTENT_TOP <= y <= bottom,
            idx == view.scroll + (y - CONTENT_TOP),
            idx <= n || y == CONTENT_TOP,
            out@.len() == y - CONTENT_TOP,
            forall|j: int|
                0 <= j < out@.len() ==> (#[trigger] out@[j])@ == view.row_mark(
                    view.scroll + j,
                    cols,
                    CONTENT_TOP + j,
                ),
        decreases n - idx,
    {
        out.push(queue_list_row(view, idx, cols, y));
        idx += 1;
        y += 1;
    }
    assert(marks(out@) =~= view.body(cols, bottom as int));
    out
}

/// The list.
pub open spec fn list_screen(view: ListView, cols: u16, rows: u16) -> Seq<Mark> {
    framed(view.header, list_hint(), view.body(cols, last_row(rows)), cols, rows)
}

/// The list.
pub fn draw_list(view: &ListView, cols: u16, rows: u16) -> (r: Vec<Span>)
    requires
        view.wf(),
    ensures
        marks(r@) == list_screen(*view, cols, rows),
{
    let bottom = rows.saturating_sub(1);
    let body = if bottom > CONTENT_TOP {
        draw_list_body(view, cols, bottom)
    } else {
        Vec::new()
    };
    let r = draw_frame(
        &view.header,
        "↑/↓ select  ←/→ page  Enter view  r reply  p apply  / subject  a author  d date  u update  ? help  q quit",
        body,
        cols,
        rows,
    );
    assert(marks(r@) =~= list_screen(*view, cols, rows));
    r
}

/// The selected row alone, in its place. Used by the marquee tick to update
/// the scrolling title without clearing the screen. Nothing where the window
/// has no content area, or the selection is not on the page or above the
/// first row shown.
pub fn redraw_selected_row(view: &ListView, cols: u16, rows: u16) -> (r: Option<Span>)
    requires
        view.wf(),
        view.selected - view.scroll < u16::MAX,
    ensures
        match r {
            Some(span) => {
                &&& last_row(rows) > CONTENT_TOP
                &&& view.scroll <= view.selected < view.mails@.len()
                &&& span@ == view.row_mark(
                    view.selected as int,
                    cols,
                    CONTENT_TOP + (view.selected - view.scroll),
                )
            },
            None => last_row(rows) <= CONTENT_TOP || view.selected >= view.mails@.len()
                || view.selected < view.scroll,
        },
{
    let bottom = rows.saturating_sub(1);
    if bottom <= CONTENT_TOP || view.selected >= view.mails.len() || view.selected < view.scroll {
        return None;
    }
    let y = CONTENT_TOP + (view.selected - view.scroll) as u16;
    Some(queue_list_row(view, view.selected, cols, y))
}

// ---------------------------------------------------------------------------
// A mail
// ---------------------------------------------------------------------------

/// The first line of `n` shown in a content area of `visible` lines, where
/// `scroll` was asked for: at most so far down that the area is still full.
pub open spec fn clamped(scroll: int, n: int, visible: int) -> int {
    let most = if n > visible {
        n - visible
    } else {
        0
    };
    if scroll < most {
        scroll
    } else {
        most
    }
}

/// A line of a mail, at screen line `y`.
pub open spec fn line_mark(rows: Seq<Seq<char>>, i: int, cols: u16, y: int) -> Mark {
    Mark {
        x: 0,
        y,
        text: cut(rows[i], cols as int),
        style: match color_of(rows[i], region_at(rows, i as nat)) {
            Some(color) => Style::Tinted(color),
            None => Style::Plain,
        },
    }
}

/// The lines of a mail in a content area that ends before the line `bottom`.
pub open spec fn detail_body(text: Seq<char>, scroll: int, cols: u16, bottom: int) -> Seq<Mark> {
    let all = lines(text);
    let visible = bottom - CONTENT_TOP;
    let top = clamped(scroll, all.len() as int, visible);
    Seq::new(
        (if all.len() - top < visible {
            all.len() - top
        } else {
            visible
        }) as nat,
        |i: int| line_mark(all, top + i, cols, CONTENT_TOP + i),
    )
}

/// The lines of a mail in a content area that ends before the line `bottom`.
fn draw_detail_body(text: &str, scroll: usize, cols: u16, bottom: u16) -> (r: Vec<Span>)
    requires
        bottom > CONTENT_TOP,
    ensures
        marks(r@) == detail_body(text@, scroll as int, cols, bottom as int),
{
    let visible = (bottom - CONTENT_TOP) as usize;
    let all = split_lines(&chars_of(text));
    let ghost rows = lines(text@);
    let n = all.len();
    let max_scroll = n.saturating_sub(visible);
    let top = if scroll < max_scroll { scroll } else { max_scroll };
    let end = if visible < n - top { top + visible } else { n };
    let mut out: Vec<Span> = Vec::new();
    // The diff region is tracked from the top, not just over the visible
    // window, so that prose that starts with a dash stays uncolored.
    let mut in_hunk = false;
    let mut idx: usize = 0;
    while idx < end
        invariant
            rows == views(all@),
            n == all@.len(),
            top <= end <= n,
            end - top <= visible,
            visible + CONTENT_TOP <= u16::MAX,
            idx <= end,
            in_hunk == region_at(rows, idx as nat),
            idx <= top ==> out@.len() == 0,
            idx >= top ==> out@.len() == idx - top,
            forall|j: int|
                0 <= j < out@.len() ==> (#[trigger] out@[j])@ == line_mark(
                    rows,
                    top + j,
                    cols,
                    CONTENT_TOP + j,
                ),
        decreases end - idx,
    {
        let color = line_color(&all[idx], &mut in_hunk);
        if idx >= top {
            let y = CONTENT_TOP + (idx - top) as u16;
            let text = truncate(string_of(&all[idx]).as_str(), cols as usize);
            let style = match color {
                Some(c) => Style::Tinted(c),
                None => Style::Plain,
            };
            out.push(Span { x: 0, y, text, style });
        }
        idx += 1;
    }
    assert(marks(out@) =~= detail_body(text@, scroll as int, cols, bottom as int));
    out
}

/// The hint of a mail.
pub open spec fn detail_hint() -> Seq<char> {
    "↑/↓/PgUp/PgDn scroll  g/G top/bottom  r reply  p apply  Esc/q back"@
}

/// A mail.
pub open spec fn detail_screen(
    header: HeaderInfo,
    text: Seq<char>,
    scroll: usize,
    cols: u16,
    rows: u16,
) -> Seq<Mark> {
    framed(
        header,
        detail_hint(),
        detail_body(text, scroll as int, cols, last_row(rows)),
        cols,
        rows,
    )
}

/// A mail.
pub fn draw_detail(header: &HeaderInfo, text: &str, scroll: usize, cols: u16, rows: u16) -> (r: Vec<
    Span,
>)
    ensures
        marks(r@) == detail_screen(*header, text@, scroll, cols, rows),
{
    let bottom = rows.saturating_sub(1);
    let body = if bottom > CONTENT_TOP {
        draw_detail_body(text, scroll, cols, bottom)
    } else {
        Vec::new()
    };
    let r = draw_frame(
        header,
        "↑/↓/PgUp/PgDn scroll  g/G top/bottom  r reply  p apply  Esc/q back",
        body,
        cols,
        rows,
    );
    assert(marks(r@) =~= detail_screen(*header, text@, scroll, cols, rows));
    r
}

// ---------------------------------------------------------------------------
// The help screen
// ---------------------------------------------------------------------------

/// The lines of the help screen.
pub open spec fn help_text() -> Seq<Seq<char>> {
    seq![
        "LKML Reader — Keys"@,
        ""@,
        "  q          quit"@,
        "  ↑          move selection up (within page)"@,
        "  ↓          move selection down (within page)"@,
        "  →          next page"@,
        "  ←          previous page"@,
        "  Enter      open selected mail"@,
        "  r          reply to selected mail ($EDITOR, then git send-email)"@,
        "  p          apply the selected mail's patch series to a git tree (git am)"@,
        "  /          set subject filter (scans in the background; pages open as matches arrive)"@,
        "  a          set author filter (substring of the From header: name or address)"@,
        "  d          set date filter (today | yesterday | YYYY/MM/DD HH:MM to YYYY/MM/DD HH:MM)"@,
        "  u          update current mirror (git remote update on the latest epoch)"@,
        ""@,
        "  Detail view:"@,
        "    ↑/↓/PgUp/PgDn scroll   Space = page down"@,
        "    g / G    jump to top / bottom"@,
        "    r        reply   p  apply patch series   Esc / q  back to list"@,
        ""@,
        "Press any key to return."@,
    ]
}

/// The lines of the help screen.
fn help_lines() -> (r: Vec<String>)
    ensures
        texts(r@) == help_text(),
{
    let r = vec![
        "LKML Reader — Keys".to_string(),
        "".to_string(),
        "  q          quit".to_string(),
        "  ↑          move selection up (within page)".to_string(),
        "  ↓          move selection down (within page)".to_string(),
        "  →          next page".to_string(),
        "  ←          previous page".to_string(),
        "  Enter      open selected mail".to_string(),
        "  r          reply to selected mail ($EDITOR, then git send-email)".to_string(),
        "  p          apply the selected mail's patch series to a git tree (git am)".to_string(),
        "  /          set subject filter (scans in the background; pages open as matches arrive)".to_string(),
        "  a          set author filter (substring of the From header: name or address)".to_string(),
        "  d          set date filter (today | yesterday | YYYY/MM/DD HH:MM to YYYY/MM/DD HH:MM)".to_string(),
        "  u          update current mirror (git remote update on the latest epoch)".to_string(),
        "".to_string(),
        "  Detail view:".to_string(),
        "    ↑/↓/PgUp/PgDn scroll   Space = page down".to_string(),
        "    g / G    jump to top / bottom".to_string(),
        "    r        reply   p  apply patch series   Esc / q  back to list".to_string(),
        "".to_string(),
        "Press any key to return.".to_string(),
    ];
    assert(texts(r@) =~= help_text());
    r
}

/// The help screen's lines in a content area that ends before the line
/// `bottom`.
pub open spec fn help_body(cols: u16, bottom: int) -> Seq<Mark> {
    Seq::new(
        fitting(help_text().len(), 2, bottom),
        |i: int|
            Mark {
                x: 2,
                y: 2 + i,
                text: cut(
                    help_text()[i],
                    if cols > 2 {
                        cols - 2
                    } else {
                        0
                    },
                ),
                style: Style::Plain,
            },
    )
}

/// The help screen's lines in a content area that ends before the line
/// `bottom`.
fn draw_help_body(cols: u16, bottom: u16) -> (r: Vec<Span>)
    ensures
        marks(r@) == help_body(cols, bottom as int),
{
    let rows = help_lines();
    let w = (cols as usize).saturating_sub(2);
    let mut out: Vec<Span> = Vec::new();
    let mut y: u16 = 2;
    let mut i: usize = 0;
    while i < rows.len() && y < bottom
        invariant
            texts(rows@) == help_text(),
            w == if cols > 2 {
                cols - 2
            } else {
                0
            },
            y == 2 + i,
            i <= rows@.len(),
            i > 0 ==> y <= bottom,
            out@.len() == i,
            forall|j: int|
                0 <= j < i ==> (#[trigger] out@[j])@ == (Mark {
                    x: 2,
                    y: 2 + j,
                    text: cut(help_text()[j], w as int),
                    style: Style::Plain,
                }),
        decreases rows@.len() - i,
    {
        assert(rows@[i as int]@ == texts(rows@)[i as int]);
        out.push(Span { x: 2, y, text: truncate(rows[i].as_str(), w), style: Style::Plain });
        y += 1;
        i += 1;
    }
    assert(rows@.len() == help_text().len());
    assert(marks(out@) =~= help_body(cols, bottom as int));
    out
}

/// The help screen.
pub open spec fn help_screen(header: HeaderInfo, cols: u16, rows: u16) -> Seq<Mark> {
    framed(header, "press any key to return"@, help_body(cols, last_row(rows)), cols, rows)
}

/// The help screen.
pub fn draw_help(header: &HeaderInfo, cols: u16, rows: u16) -> (r: Vec<Span>)
    ensures
        marks(r@) == help_screen(*header, cols, rows),
{
    let body = draw_help_body(cols, rows.saturating_sub(1));
    let r = draw_frame(header, "press any key to return", body, cols, rows);
    assert(marks(r@) =~= help_screen(*header, cols, rows));
    r
}

// ---------------------------------------------------------------------------
// Laws
// ---------------------------------------------------------------------------

/// A marquee starts with the start of the title, and goes round: after as many
/// ticks as the title and its gap are wide it shows the same again.
pub proof fn law_marquee_goes_round(title: Seq<char>, ticks: nat, w: nat)
    ensures
        w <= title.len() ==> marquee(title, 0, w) == cut(title, w as int),
        marquee(title, ticks + title.len() + "    "@.len(), w) == marquee(title, ticks, w),
{
    reveal_strlit("    ");
    let ring = title + "    "@;
    let n = ring.len() as int;
    if w <= title.len() {
        assert forall|i: int| 0 <= i < w implies marquee(title, 0, w)[i] == title[i] by {
            vstd::arithmetic::div_mod::lemma_small_mod(i as nat, n as nat);
        }
        assert(marquee(title, 0, w) =~= cut(title, w as int));
    }
    let once = marquee(title, ticks, w);
    let again = marquee(title, ticks + title.len() + "    "@.len(), w);
    assert forall|i: int| 0 <= i < w implies again[i] == once[i] by {
        vstd::arithmetic::div_mod::lemma_mod_add_multiples_vanish(ticks + i, n);
        assert(n + (ticks + i) == ticks + title.len() + "    "@.len() + i);
    }
    assert(again =~= once);
}

/// Two views that tell the same, but for the ticks of the marquee.
pub open spec fn same_but_ticks(view: ListView, other: ListView) -> bool {
    &&& other.offset == view.offset
    &&& other.mails@ == view.mails@
    &&& other.indent@ == view.indent@
    &&& other.selected == view.selected
}

/// A painted row is as wide as the window. It is the same again whenever the
/// marquee has gone round, a turn being as many ticks as the title and its gap
/// have characters; and the ticks move no row but the selected one, and that
/// one only where its title is wider than its column.
pub proof fn law_rows_come_round(
    view: ListView,
    other: ListView,
    idx: int,
    cols: u16,
    y: int,
    turns: nat,
)
    requires
        0 <= idx < view.mails@.len(),
        same_but_ticks(view, other),
    ensures
        view.row_mark(idx, cols, y).text.len() == cols,
        other.selected_scroll == view.selected_scroll + turns * (view.mails@[idx].subject@.len()
            + 4) ==> other.row_mark(idx, cols, y) == view.row_mark(idx, cols, y),
        idx != view.selected || view.mails@[idx].subject@.len() <= subject_width(
            cols as nat,
            view.offset as nat,
            view.mails@.len(),
            view.indent@[idx],
        ) ==> other.row_mark(idx, cols, y) == view.row_mark(idx, cols, y),
{
    reveal_strlit("    ");
    let title = view.mails@[idx].subject@;
    let ring = title + "    "@;
    let n = ring.len() as int;
    let w = subject_width(
        cols as nat,
        view.offset as nat,
        view.mails@.len(),
        view.indent@[idx],
    );
    let ticks = view.selected_scroll as nat;
    if other.selected_scroll == view.selected_scroll + turns * (title.len() + 4) && title.len()
        > w {
        let once = marquee(title, ticks, w as nat);
        let again = marquee(title, other.selected_scroll as nat, w as nat);
        assert forall|i: int| 0 <= i < once.len() implies again[i] == once[i] by {
            vstd::arithmetic::div_mod::lemma_mod_multiples_vanish(turns as int, ticks + i, n);
            assert(n * turns == turns * (title.len() + 4)) by (nonlinear_arith)
                requires
                    n == title.len() + 4,
            ;
        }
        assert(again =~= once);
    }
}

/// Before the first header of a diff nothing is colored, whatever it starts
/// with.
pub proof fn law_prose_stays_uncolored(rows: Seq<Seq<char>>, n: nat)
    requires
        n <= rows.len(),
        forall|i: int|
            0 <= i < n ==> !heads_hunk(#[trigger] rows[i]) && !heads_file(rows[i]),
    ensures
        !region_at(rows, n),
        forall|i: int|
            0 <= i < n ==> color_of(#[trigger] rows[i], region_at(rows, i as nat)) is None,
    decreases n,
{
    if n > 0 {
        law_prose_stays_uncolored(rows, (n - 1) as nat);
        assert(!heads_hunk(rows[n - 1]) && !heads_file(rows[n - 1]));
    }
}

/// All of `shown` is on the lines of a window.
pub open spec fn inside(shown: Seq<Mark>, rows: u16) -> bool {
    forall|i: int| 0 <= i < shown.len() ==> 0 <= (#[trigger] shown[i]).y < rows
}

/// No screen paints below the window, however small it is.
pub proof fn law_screens_stay_inside(
    header: HeaderInfo,
    view: ListView,
    text: Seq<char>,
    scroll: usize,
    cols: u16,
    rows: u16,
)
    requires
        rows > 0,
    ensures
        inside(loading_screen(header, text, cols, rows), rows),
        inside(list_screen(view, cols, rows), rows),
        inside(detail_screen(header, text, scroll, cols, rows), rows),
        inside(help_screen(header, cols, rows), rows),
{
    let bottom = last_row(rows);
    if bottom > CONTENT_TOP {
        let visible = bottom - CONTENT_TOP;
        assert(inside(seq![centered("⏳  "@ + text, cols, bottom)], rows));
        assert(inside(view.body(cols, bottom), rows));
        assert(inside(detail_body(text, scroll as int, cols, bottom), rows));
        assert(inside(help_body(cols, bottom), rows));
    }
}

/// A selection that is within the window is painted as selected, on its line
/// of the content area.
pub proof fn law_selection_is_painted(view: ListView, cols: u16, bottom: int)
    requires
        view.selected < view.mails@.len(),
        view.scroll <= view.selected < view.scroll + (bottom - CONTENT_TOP),
    ensures
        ({
            let body = view.body(cols, bottom);
            let i = view.selected - view.scroll;
            &&& 0 <= i < body.len()
            &&& body[i].style == Style::Selected
            &&& body[i].y == CONTENT_TOP + i
            &&& forall|j: int|
                0 <= j < body.len() && j != i ==> (#[trigger] body[j]).style == Style::Plain
        }),
{
}

} // verus!
