//! What is to be seen on the screens.

use vstd::prelude::*;

use crate::clock::date_text;
use crate::text::{all_digits, contains_text, decimal, digits_value, lines, occurs_at};
use crate::text_laws::{law_a_text_holds_its_parts, law_leading_zeros};
use crate::ui::{
    bar_mark, centered, color_of, cut, detail_body, detail_hint, detail_screen, fitted, framed,
    header_mark, header_text, heads_file, heads_hunk, help_body, help_screen, help_text,
    indent_mark, list_hint, list_screen, loading_screen, marquee, number_width, prompt_tail,
    region_after, region_at, subject_text, subject_width, widened, zero_padded, Color, HeaderInfo,
    ListView, Mark, Style,
};

verus! {

// ---------------------------------------------------------------------------
// Widths
// ---------------------------------------------------------------------------

/// A text that fits a width is shown whole, with blanks behind it; of any
/// other its start is shown, as far as it fits.
pub proof fn law_texts_are_shown_as_far_as_they_fit(s: Seq<char>, rest: Seq<char>, w: nat)
    ensures
        s.len() <= w ==> fitted(s, w as int).len() == w && fitted(s, w as int).take(s.len() as int)
            == s && forall|i: int|
            s.len() <= i < w ==> #[trigger] fitted(s, w as int)[i] == ' ',
        s.len() <= w ==> cut(s, w as int) == s,
        s.len() == w ==> fitted(s + rest, w as int) == s && cut(s + rest, w as int) == s,
{
    if s.len() <= w {
        assert(fitted(s, w as int).take(s.len() as int) =~= s);
    }
    if s.len() == w {
        assert(cut(s + rest, w as int) =~= s);
        assert(fitted(s + rest, w as int) =~= s);
    }
}

/// A number padded with zeros is as wide as was asked for, unless its digits
/// need more, and is still read as itself.
pub proof fn law_padded_numbers_read_back(n: nat, w: nat)
    ensures
        zero_padded(n, w as int).len() >= w,
        zero_padded(n, w as int).len() == w || zero_padded(n, w as int) == decimal(n),
        all_digits(zero_padded(n, w as int)),
        digits_value(zero_padded(n, w as int)) == n,
{
    let z = w - decimal(n).len();
    crate::text::law_decimal_reads_back(n);
    if z > 0 {
        law_leading_zeros(n, z as nat);
    } else {
        assert(zero_padded(n, w as int) =~= decimal(n));
    }
    let p = zero_padded(n, w as int);
    assert forall|i: int| 0 <= i < p.len() implies crate::text::is_digit(#[trigger] p[i]) by {
        if z > 0 && i >= z {
            assert(p[i] == decimal(n)[i - z]);
        }
    }
}

// ---------------------------------------------------------------------------
// Rows of the list
// ---------------------------------------------------------------------------

/// The columns of a row, as they stand side by side.
pub open spec fn columns(
    number: Seq<char>,
    date: Seq<char>,
    author: Seq<char>,
    mark: Seq<char>,
    title: Seq<char>,
) -> Seq<char> {
    seq![' ', '['] + number + seq![']', ' '] + date + seq![' ', ' '] + author + seq![' '] + mark
        + title
}

/// A row shows the number of the mail, counted from 1 over all pages, its
/// date, its author in 24 columns and its title, which has the rest of the row;
/// the numbers of a page are all equally wide. A row under a series is moved in
/// by four columns.
#[verifier::spinoff_prover]
#[verifier::rlimit(40)]
pub proof fn law_a_row_has_these_columns(view: ListView, idx: int, cols: u16) -> (parts: (
    Seq<char>,
    Seq<char>,
    Seq<char>,
    Seq<char>,
    Seq<char>,
))
    requires
        view.wf(),
        0 <= idx < view.mails@.len(),
        date_text(view.mails@[idx].date).len() <= 16,
    ensures
        view.row_text(idx, cols) == columns(parts.0, parts.1, parts.2, parts.3, parts.4),
        all_digits(parts.0) && digits_value(parts.0) == view.offset + idx + 1,
        parts.0.len() >= 3,
        parts.1.len() == 16,
        parts.1.take(date_text(view.mails@[idx].date).len() as int) == date_text(
            view.mails@[idx].date,
        ),
        parts.2.len() == 24,
        view.mails@[idx].author@.len() <= 24 ==> parts.2.take(
            view.mails@[idx].author@.len() as int,
        ) == view.mails@[idx].author@,
        view.mails@[idx].author@.len() > 24 ==> parts.2 == view.mails@[idx].author@.take(24),
        view.indent@[idx] ==> parts.3 == seq![' ', ' ', '↳', ' '],
        !view.indent@[idx] ==> parts.3 == Seq::<char>::empty(),
        ({
            let title = view.mails@[idx].subject@;
            let used = 47 + number_width(view.offset as nat, view.mails@.len()) + parts.3.len();
            let room = if cols > used {
                cols - used
            } else {
                0
            };
            &&& title.len() <= room ==> parts.4 == title
            &&& title.len() > room ==> parts.4.len() == room
            &&& title.len() > room && (idx != view.selected || view.selected_scroll == 0)
                ==> parts.4 == title.take(room)
        }),
{
    let mail = view.mails@[idx];
    let n = view.mails@.len();
    let w = number_width(view.offset as nat, n);
    let number = zero_padded((view.offset + idx + 1) as nat, w);
    let date = widened(date_text(mail.date), 16);
    let author = fitted(mail.author@, 24);
    let mark = if view.indent@[idx] {
        indent_mark()
    } else {
        seq![]
    };
    let room = subject_width(cols as nat, view.offset as nat, n, view.indent@[idx]);
    let title = subject_text(
        mail.subject@,
        idx == view.selected,
        view.selected_scroll as nat,
        room,
    );
    reveal_strlit(" [");
    reveal_strlit("] ");
    reveal_strlit("  ");
    reveal_strlit(" ");
    reveal_strlit("  ↳ ");
    assert(" ["@ =~= seq![' ', '[']);
    assert("] "@ =~= seq![']', ' ']);
    assert("  "@ =~= seq![' ', ' ']);
    assert(" "@ =~= seq![' ']);
    assert("  ↳ "@ =~= seq![' ', ' ', '↳', ' ']);
    law_padded_numbers_read_back((view.offset + idx + 1) as nat, w as nat);
    assert(date.take(date_text(mail.date).len() as int) =~= date_text(mail.date));
    law_texts_are_shown_as_far_as_they_fit(mail.author@, seq![], 24);
    if mail.author@.len() > 24 {
        assert(author =~= mail.author@.take(24));
    }
    if mail.subject@.len() > room && idx == view.selected && view.selected_scroll == 0 {
        crate::ui::law_marquee_goes_round(mail.subject@, 0, room as nat);
    }
    (number, date, author, mark, title)
}

/// All numbers of a page are equally wide: as wide as the last one, and three
/// digits at least.
pub proof fn law_numbers_of_a_page_are_equally_wide(offset: nat, n: nat, idx: nat)
    requires
        idx < n,
    ensures
        zero_padded(offset + idx + 1, number_width(offset, n)).len() == number_width(offset, n),
        number_width(offset, n) >= 3,
        number_width(offset, n) == 3 || number_width(offset, n) == decimal(offset + n).len(),
{
    lemma_not_shorter(offset + idx + 1, offset + n);
}

/// A larger number is not written shorter.
proof fn lemma_not_shorter(a: nat, b: nat)
    requires
        a <= b,
    ensures
        decimal(a).len() <= decimal(b).len(),
    decreases b,
{
    if a >= 10 {
        lemma_not_shorter(a / 10, b / 10);
    } else if b >= 10 {
        lemma_not_shorter(0, b / 10);
    }
}

/// With each tick the marquee moves one column to the left, and behind the
/// title come four blanks before the title comes again.
pub proof fn law_a_marquee_moves_by_one_column(title: Seq<char>, ticks: nat, w: nat, i: int)
    requires
        0 <= i,
    ensures
        i + 1 < w ==> marquee(title, ticks + 1, w)[i] == marquee(title, ticks, w)[i + 1],
        i < w && i < 4 ==> marquee(title, title.len(), w)[i] == ' ',
        i < w && i < title.len() ==> marquee(title, title.len() + 4, w)[i] == title[i],
        i < w && i < title.len() ==> marquee(title, 0, w)[i] == title[i],
{
    reveal_strlit("    ");
    let ring = title + "    "@;
    let n = ring.len();
    assert(n == title.len() + 4);
    if i < 4 {
        vstd::arithmetic::div_mod::lemma_small_mod((title.len() + i) as nat, n);
        assert(ring[title.len() + i] == ' ');
    }
    if i < title.len() {
        vstd::arithmetic::div_mod::lemma_small_mod(i as nat, n);
        vstd::arithmetic::div_mod::lemma_mod_add_multiples_vanish(i, n as int);
        assert(ring[i] == title[i]);
    }
}

/// The list shows its mails from the first row of the window on, one to a
/// line and without a gap, as many as fit.
pub proof fn law_the_list_shows_its_rows(view: ListView, cols: u16, bottom: int, i: int)
    requires
        view.mails@.len() > 0,
        bottom > 1,
        0 <= i,
        view.scroll <= view.mails@.len(),
    ensures
        i < view.body(cols, bottom).len() <==> view.scroll + i < view.mails@.len() && 1 + i
            < bottom,
        i < view.body(cols, bottom).len() ==> {
            let shown = view.body(cols, bottom)[i];
            &&& shown.x == 0 && shown.y == 1 + i
            &&& shown.text == fitted(view.row_text(view.scroll + i, cols), cols as int)
            &&& shown.style == Style::Selected <==> view.scroll + i == view.selected
        },
{
}

/// What is said of a page without mails stands line by line below the header,
/// moved in by two columns.
pub proof fn law_an_empty_list_says_why(view: ListView, cols: u16, bottom: int, i: int)
    requires
        view.mails@.len() == 0,
        0 <= i,
    ensures
        i < view.body(cols, bottom).len() <==> i < view.empty_message@.len() && 2 + i < bottom,
        i < view.body(cols, bottom).len() ==> view.body(cols, bottom)[i] == (Mark {
            x: 2,
            y: 2 + i,
            text: view.empty_message@[i]@,
            style: Style::Plain,
        }),
{
}

// ---------------------------------------------------------------------------
// Bars
// ---------------------------------------------------------------------------

/// Every screen has the header at its top and a bar at its bottom, and what is
/// painted between them wherever there is a line for it.
pub proof fn law_screens_have_two_bars(
    header: HeaderInfo,
    hint: Seq<char>,
    body: Seq<Mark>,
    cols: u16,
    rows: u16,
)
    requires
        rows > 0,
    ensures
        ({
            let all = framed(header, hint, body, cols, rows);
            &&& all[0] == header_mark(header, cols)
            &&& all[0].y == 0 && all[0].text.len() == cols && all[0].style == Style::Header
            &&& all.last() == bar_mark(hint, cols, rows)
            &&& all.last().y + 1 == rows && all.last().text.len() == cols && all.last().style
                == Style::Bar
            &&& rows >= 3 ==> all.subrange(1, all.len() - 1) == body
            &&& rows < 3 ==> all.len() == 2
        }),
{
    let all = framed(header, hint, body, cols, rows);
    if rows >= 3 {
        assert(all.subrange(1, all.len() - 1) =~= body);
    }
}

/// Between its bars each screen shows what it is for: the list its rows, an
/// open mail its lines, the help its lines moved in by two columns, and a
/// loading screen its message.
pub proof fn law_what_each_screen_shows(
    header: HeaderInfo,
    view: ListView,
    text: Seq<char>,
    scroll: usize,
    cols: u16,
    rows: u16,
    i: int,
)
    requires
        rows >= 3,
    ensures
        between_bars(list_screen(view, cols, rows)) == view.body(cols, rows - 1),
        list_screen(view, cols, rows)[0] == header_mark(view.header, cols),
        between_bars(detail_screen(header, text, scroll, cols, rows)) == detail_body(
            text,
            scroll as int,
            cols,
            rows - 1,
        ),
        0 <= i < help_text().len() && 2 + i < rows - 1 ==> between_bars(
            help_screen(header, cols, rows),
        )[i] == (Mark {
            x: 2,
            y: 2 + i,
            text: cut(
                help_text()[i],
                if cols > 2 {
                    cols - 2
                } else {
                    0
                },
            ),
            style: Style::Plain,
        }),
        between_bars(loading_screen(header, text, cols, rows)).len() == 1,
        between_bars(loading_screen(header, text, cols, rows))[0].text == seq!['⏳', ' ', ' ']
            + text,
        between_bars(loading_screen(header, text, cols, rows))[0].style == Style::Bold,
{
    reveal_strlit("⏳  ");
    assert("⏳  "@ =~= seq!['⏳', ' ', ' ']);
    let bottom = rows - 1;
    let message = seq![centered("⏳  "@ + text, cols, bottom)];
    law_screens_have_two_bars(view.header, list_hint(), view.body(cols, bottom), cols, rows);
    law_screens_have_two_bars(
        header,
        detail_hint(),
        detail_body(text, scroll as int, cols, bottom),
        cols,
        rows,
    );
    law_screens_have_two_bars(
        header,
        "press any key to return"@,
        help_body(cols, bottom),
        cols,
        rows,
    );
    law_screens_have_two_bars(header, ""@, message, cols, rows);
}

/// What is painted between the first and the last mark of a screen.
pub open spec fn between_bars(all: Seq<Mark>) -> Seq<Mark> {
    all.subrange(1, all.len() - 1)
}

/// The bar shows its text behind one blank.
pub proof fn law_a_bar_shows_its_text(text: Seq<char>, cols: u16, rows: u16)
    requires
        text.len() < cols,
    ensures
        bar_mark(text, cols, rows).text.subrange(1, text.len() as int + 1) == text,
        bar_mark(text, cols, rows).text[0] == ' ',
{
    reveal_strlit(" ");
    assert(bar_mark(text, cols, rows).text.subrange(1, text.len() as int + 1) =~= text);
}

/// The header tells the list, the epochs, the page and the three constraints,
/// each behind its name.
#[verifier::spinoff_prover]
#[verifier::rlimit(40)]
pub proof fn law_the_header_tells_where_we_are(h: HeaderInfo)
    ensures
        contains_text(header_text(h), "list: "@ + h.list_name@ + "   epoch: "@),
        contains_text(header_text(h), "epoch: "@ + h.epoch_label@ + "   page: "@),
        contains_text(header_text(h), "page: "@ + h.page_label@ + "   subject: "@),
        contains_text(header_text(h), "subject: "@ + h.subject_filter@ + "   author: "@),
        contains_text(header_text(h), "author: "@ + h.author_filter@ + "   date: "@),
        contains_text(header_text(h), "date: "@ + h.date_filter@),
{
    lemma_header_names();
    let to_epoch = " LKML Reader  —  list: "@ + h.list_name@ + "   epoch: "@;
    let to_page = to_epoch + h.epoch_label@ + "   page: "@;
    let to_subject = to_page + h.page_label@ + "   subject: "@;
    let to_author = to_subject + h.subject_filter@ + "   author: "@;
    let to_date = to_author + h.author_filter@ + "   date: "@;
    assert(header_text(h) == to_date + h.date_filter@);
    assert(to_epoch =~= " LKML Reader  —  "@ + ("list: "@ + h.list_name@ + "   epoch: "@)
        + seq![]);
    law_a_text_holds_its_parts(
        " LKML Reader  —  "@,
        "list: "@ + h.list_name@ + "   epoch: "@,
        seq![],
    );
    let list = "list: "@ + h.list_name@ + "   epoch: "@;
    lemma_in_longer(to_epoch, h.epoch_label@, "   page: "@, list);
    lemma_in_longer(to_page, h.page_label@, "   subject: "@, list);
    lemma_in_longer(to_subject, h.subject_filter@, "   author: "@, list);
    lemma_in_longer(to_author, h.author_filter@, "   date: "@, list);
    lemma_in_longer(to_date, h.date_filter@, seq![], list);
    let epoch = "epoch: "@ + h.epoch_label@ + "   page: "@;
    let before_epoch = " LKML Reader  —  list: "@ + h.list_name@;
    lemma_named(before_epoch, "epoch: "@, h.epoch_label@, "   page: "@, to_epoch);
    lemma_in_longer(to_page, h.page_label@, "   subject: "@, epoch);
    lemma_in_longer(to_subject, h.subject_filter@, "   author: "@, epoch);
    lemma_in_longer(to_author, h.author_filter@, "   date: "@, epoch);
    lemma_in_longer(to_date, h.date_filter@, seq![], epoch);
    let page = "page: "@ + h.page_label@ + "   subject: "@;
    lemma_named(to_epoch + h.epoch_label@, "page: "@, h.page_label@, "   subject: "@, to_page);
    lemma_in_longer(to_subject, h.subject_filter@, "   author: "@, page);
    lemma_in_longer(to_author, h.author_filter@, "   date: "@, page);
    lemma_in_longer(to_date, h.date_filter@, seq![], page);
    let subject = "subject: "@ + h.subject_filter@ + "   author: "@;
    let before_subject = to_page + h.page_label@;
    lemma_named(before_subject, "subject: "@, h.subject_filter@, "   author: "@, to_subject);
    lemma_in_longer(to_author, h.author_filter@, "   date: "@, subject);
    lemma_in_longer(to_date, h.date_filter@, seq![], subject);
    let author = "author: "@ + h.author_filter@ + "   date: "@;
    let before_author = to_subject + h.subject_filter@;
    lemma_named(before_author, "author: "@, h.author_filter@, "   date: "@, to_author);
    lemma_in_longer(to_date, h.date_filter@, seq![], author);
    lemma_named(to_author + h.author_filter@, "date: "@, h.date_filter@, seq![], to_date);
    assert("date: "@ + h.date_filter@ + Seq::<char>::empty() =~= "date: "@ + h.date_filter@);
    assert(to_date + h.date_filter@ + Seq::<char>::empty() =~= to_date + h.date_filter@);
}

/// What stands in a text stands in a longer one.
proof fn lemma_in_longer(t: Seq<char>, a: Seq<char>, b: Seq<char>, part: Seq<char>)
    requires
        contains_text(t, part),
    ensures
        contains_text(t + a + b, part),
{
    let i = choose|i: int| occurs_at(t, part, i);
    assert((t + a + b).subrange(i, i + part.len()) =~= t.subrange(i, i + part.len()));
    assert(occurs_at(t + a + b, part, i));
}

/// A value stands behind its name.
proof fn lemma_named(
    before: Seq<char>,
    name: Seq<char>,
    value: Seq<char>,
    next: Seq<char>,
    t: Seq<char>,
)
    requires
        t == before + (seq![' ', ' ', ' '] + name),
    ensures
        contains_text(t + value + next, name + value + next),
{
    let gap = seq![' ', ' ', ' '];
    let part = name + value + next;
    lemma_regrouped(before, gap, name);
    lemma_regrouped(before + gap, name, value);
    lemma_regrouped(before + gap, name + value, next);
    law_a_text_holds_its_parts(before + gap, part, seq![]);
    assert((before + gap + part) + Seq::<char>::empty() =~= before + gap + part);
}

proof fn lemma_regrouped(a: Seq<char>, b: Seq<char>, c: Seq<char>)
    ensures
        a + b + c == a + (b + c),
{
    assert(a + b + c =~= a + (b + c));
}

proof fn lemma_header_names()
    ensures
        " LKML Reader  —  list: "@ == " LKML Reader  —  "@ + "list: "@,
        "   epoch: "@ == seq![' ', ' ', ' '] + "epoch: "@,
        "   page: "@ == seq![' ', ' ', ' '] + "page: "@,
        "   subject: "@ == seq![' ', ' ', ' '] + "subject: "@,
        "   author: "@ == seq![' ', ' ', ' '] + "author: "@,
        "   date: "@ == seq![' ', ' ', ' '] + "date: "@,
{
    reveal_strlit(" LKML Reader  —  list: ");
    reveal_strlit(" LKML Reader  —  ");
    reveal_strlit("list: ");
    reveal_strlit("epoch: ");
    reveal_strlit("page: ");
    reveal_strlit("subject: ");
    reveal_strlit("author: ");
    reveal_strlit("date: ");
    reveal_strlit("   epoch: ");
    reveal_strlit("   page: ");
    reveal_strlit("   subject: ");
    reveal_strlit("   author: ");
    reveal_strlit("   date: ");
    assert(" LKML Reader  —  list: "@ =~= " LKML Reader  —  "@ + "list: "@);
    assert("   epoch: "@ =~= seq![' ', ' ', ' '] + "epoch: "@);
    assert("   page: "@ =~= seq![' ', ' ', ' '] + "page: "@);
    assert("   subject: "@ =~= seq![' ', ' ', ' '] + "subject: "@);
    assert("   author: "@ =~= seq![' ', ' ', ' '] + "author: "@);
    assert("   date: "@ =~= seq![' ', ' ', ' '] + "date: "@);
}

/// A prompt that fits the window is shown whole. Of a longer one the end is
/// shown, so that what is typed stays in sight, with a column left for the
/// cursor.
pub proof fn law_a_prompt_shows_its_end(before: Seq<char>, shown: Seq<char>, cols: u16)
    requires
        cols > 0,
    ensures
        shown.len() < cols ==> prompt_tail(shown, cols) == shown,
        shown.len() + 1 == cols ==> prompt_tail(before + shown, cols) == shown,
        prompt_tail(shown, cols).len() < cols,
{
    if shown.len() + 1 == cols {
        assert(prompt_tail(before + shown, cols) =~= shown);
    }
}

/// A message in the middle has as many columns to its left as to its right, and
/// as many lines above as below, but for one.
pub proof fn law_a_centered_message_is_in_the_middle(text: Seq<char>, cols: u16, bottom: int)
    requires
        bottom > 1,
    ensures
        ({
            let mark = centered(text, cols, bottom);
            let left = mark.x;
            let right = cols - left - text.len();
            let above = mark.y - 1;
            let below = bottom - 1 - mark.y;
            &&& mark.text == text
            &&& text.len() <= cols ==> left == right || left + 1 == right
            &&& text.len() > cols ==> left == 0
            &&& above == below || above == below + 1
        }),
{
}

// ---------------------------------------------------------------------------
// A mail
// ---------------------------------------------------------------------------

/// An open mail shows its lines one below the other, from the line that was
/// scrolled to on. The window is never left partly empty while there are lines
/// above it to fill it with.
pub proof fn law_a_mail_shows_its_lines(
    text: Seq<char>,
    scroll: int,
    cols: u16,
    bottom: int,
    i: int,
)
    requires
        bottom > 1,
        0 <= scroll,
    ensures
        ({
            let n = lines(text).len();
            let visible = bottom - 1;
            let body = detail_body(text, scroll, cols, bottom);
            let top = if scroll + visible <= n {
                scroll
            } else if visible <= n {
                n - visible
            } else {
                0
            };
            &&& n >= visible ==> body.len() == visible
            &&& n < visible ==> body.len() == n
            &&& 0 <= i < body.len() ==> {
                &&& body[i].x == 0 && body[i].y == 1 + i
                &&& body[i].text == cut(lines(text)[top + i], cols as int)
            }
        }),
{
}

/// The first character of a line.
pub open spec fn sign_of(line: Seq<char>) -> char {
    line[0]
}

/// Below the head of a hunk every line that the diff adds is green, every line
/// that it takes away is red, and what it keeps has no color, up to the first
/// line that is no part of a diff.
pub proof fn law_a_hunk_is_colored_by_its_signs(rows: Seq<Seq<char>>, head: int, i: int)
    requires
        0 <= head < i < rows.len(),
        heads_hunk(rows[head]),
        forall|j: int|
            head < j <= i ==> (#[trigger] rows[j]).len() > 0 && (rows[j][0] == '+' || rows[j][0]
                == '-' || rows[j][0] == ' ' || rows[j][0] == '\\'),
    ensures
        ({
            let color = color_of(rows[i], region_at(rows, i as nat));
            &&& sign_of(rows[i]) == '+' ==> color == Some(Color::Green)
            &&& sign_of(rows[i]) == '-' ==> color == Some(Color::Red)
            &&& sign_of(rows[i]) == ' ' || sign_of(rows[i]) == '\\' ==> color is None
        }),
        color_of(rows[head], region_at(rows, head as nat)) == Some(Color::Cyan),
    decreases i,
{
    reveal_strlit("@@");
    lemma_region_stays(rows, head, i);
    if heads_hunk(rows[i]) {
        assert(rows[i].subrange(0, 2)[0] == rows[i][0]);
        assert("@@"@[0] == '@');
    }
}

proof fn lemma_region_stays(rows: Seq<Seq<char>>, head: int, i: int)
    requires
        0 <= head < i <= rows.len(),
        heads_hunk(rows[head]),
        forall|j: int|
            head < j < i ==> (#[trigger] rows[j]).len() > 0 && (rows[j][0] == '+' || rows[j][0]
                == '-' || rows[j][0] == ' ' || rows[j][0] == '\\'),
    ensures
        region_at(rows, i as nat),
    decreases i,
{
    if head < i - 1 {
        lemma_region_stays(rows, head, i - 1);
        assert(rows[i - 1].len() > 0);
    }
}

/// An empty line, or one that starts as no line of a diff does, ends the diff:
/// it has no color, and neither has what follows up to the next head.
pub proof fn law_prose_ends_a_diff(line: Seq<char>, next: Seq<char>, open: bool)
    requires
        line.len() == 0 || line[0] != '+' && line[0] != '-' && line[0] != ' ' && line[0] != '\\'
            && line[0] != '@' && line[0] != 'd',
        !heads_hunk(next),
        !heads_file(next),
    ensures
        color_of(line, open) is None,
        !region_after(line, open),
        color_of(next, region_after(line, open)) is None,
{
    lemma_heads(line);
}

proof fn lemma_heads(line: Seq<char>)
    ensures
        heads_hunk(line) ==> line.len() > 0 && line[0] == '@',
        heads_file(line) ==> line.len() > 0 && (line[0] == 'd' || line[0] == '-' || line[0] == '+'),
{
    reveal_strlit("@@");
    reveal_strlit("diff --git");
    reveal_strlit("--- ");
    reveal_strlit("+++ ");
    if heads_hunk(line) {
        assert(line.subrange(0, 2)[0] == line[0]);
    }
    if line.len() >= 10 {
        assert(line.subrange(0, 10)[0] == line[0]);
    }
    if line.len() >= 4 {
        assert(line.subrange(0, 4)[0] == line[0]);
    }
}

/// The lines that start a diff: the ranges of a hunk between at signs, and the
/// names of a file. A file is named in the color of its sign, and the diff goes
/// on below it.
pub proof fn law_diffs_start_with_these_lines(rest: Seq<char>, open: bool)
    ensures
        heads_hunk(seq!['@', '@', ' '] + rest),
        heads_hunk(seq!['@', '@', '-'] + rest),
        heads_file("diff --git"@ + rest),
        color_of("--- "@ + rest, open) == Some(Color::Red) && region_after("--- "@ + rest, open),
        color_of("+++ "@ + rest, open) == Some(Color::Green) && region_after("+++ "@ + rest, open),
        color_of("diff --git"@ + rest, open) is None && region_after("diff --git"@ + rest, open),
{
    reveal_strlit("@@");
    reveal_strlit("diff --git");
    reveal_strlit("--- ");
    reveal_strlit("+++ ");
    assert((seq!['@', '@', ' '] + rest).subrange(0, 2) =~= "@@"@);
    assert((seq!['@', '@', '-'] + rest).subrange(0, 2) =~= "@@"@);
    assert(("diff --git"@ + rest).subrange(0, 10) =~= "diff --git"@);
    assert(("--- "@ + rest).subrange(0, 4) =~= "--- "@);
    assert(("+++ "@ + rest).subrange(0, 4) =~= "+++ "@);
    lemma_heads("--- "@ + rest);
    lemma_heads("+++ "@ + rest);
    lemma_heads("diff --git"@ + rest);
}

} // verus!
