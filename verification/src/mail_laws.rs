//! What reading a mail comes to, told of mails, header fields and encoded words
//! that are put together from parts.

use vstd::prelude::*;
use vstd::utf8::{encode_utf8, encode_utf8_decode_utf8, encode_utf8_valid_utf8};

use crate::archive::{
    base64_bytes, between_words, encoded_word, law_encoded_word_is_decoded, lemma_q_bytes_from,
    lemma_word_end_bounds, mime_decoded, mime_from, one_piece, pretty, q_bytes, sextets, word_bytes,
    word_end, word_text,
};
use crate::outside::{lowercase, utf8_text};
use crate::parse::{
    ascii_lowered, continues, escaped, field_line, field_row, folded, header_block, header_field,
    in_lowercase, is_digit_of, is_quoted, lemma_encode_ascii_head, lemma_hex_of_digit, mail_body,
    names_field, raw_mail_text, unquoted,
};
use crate::text::{
    contains_text, find_char, find_text, is_white, lemma_find_char, lemma_find_char_bounds,
    lemma_find_text, lemma_find_text_bounds, lines, occurs_at, repeated, trim,
};
use crate::text_laws::{
    law_first_mark, law_marks_come_off_the_ends, law_trimming_takes_off_white_space,
    lemma_find_char_from, written_rows,
};

verus! {

// ---------------------------------------------------------------------------
// Header and body
// ---------------------------------------------------------------------------

/// The header of a mail ends at its first empty line, and all behind that line
/// is its body, empty lines included.
pub proof fn law_header_ends_at_the_first_empty_line(head: Seq<char>, body: Seq<char>)
    requires
        head.len() > 0 ==> head.last() != '\n',
        !contains_text(head, "\n\n"@),
        !contains_text(head + "\n\n"@ + body, "\r\n\r\n"@),
    ensures
        header_block(head + "\n\n"@ + body) == head,
        mail_body(head + "\n\n"@ + body) == body,
{
    reveal_strlit("\n\n");
    let raw = head + "\n\n"@ + body;
    let n = head.len() as int;
    lemma_find_text(raw, "\r\n\r\n"@, 0);
    if let Some(i) = find_text(raw, "\r\n\r\n"@, 0) {
        assert(occurs_at(raw, "\r\n\r\n"@, i));
    }
    lemma_find_text(raw, "\n\n"@, 0);
    assert(raw.subrange(n, n + 2) =~= "\n\n"@);
    assert(occurs_at(raw, "\n\n"@, n));
    assert forall|j: int| 0 <= j < n implies !occurs_at(raw, "\n\n"@, j) by {
        if occurs_at(raw, "\n\n"@, j) {
            let two = raw.subrange(j, j + 2);
            assert(two[0] == raw[j] && two[1] == raw[j + 1]);
            if j + 2 <= n {
                assert(head.subrange(j, j + 2) =~= "\n\n"@);
                assert(occurs_at(head, "\n\n"@, j));
            } else {
                assert(raw[j] == head.last());
            }
        }
    }
    assert(find_text(raw, "\n\n"@, 0) == Some(n));
    assert(raw.take(n) =~= head);
    assert(raw.skip(n + 2) =~= body);
}

/// The same where lines end with a carriage return and a line feed.
pub proof fn law_header_ends_at_the_first_empty_crlf_line(head: Seq<char>, body: Seq<char>)
    requires
        head.len() > 0 ==> head.last() != '\n',
        !contains_text(head, "\r\n\r\n"@),
    ensures
        header_block(head + "\r\n\r\n"@ + body) == head,
        mail_body(head + "\r\n\r\n"@ + body) == body,
{
    reveal_strlit("\r\n\r\n");
    let mark = "\r\n\r\n"@;
    let raw = head + mark + body;
    let n = head.len() as int;
    lemma_find_text(raw, mark, 0);
    assert(raw.subrange(n, n + 4) =~= mark);
    assert(occurs_at(raw, mark, n));
    assert forall|j: int| 0 <= j < n implies !occurs_at(raw, mark, j) by {
        if occurs_at(raw, mark, j) {
            let four = raw.subrange(j, j + 4);
            assert(four[0] == raw[j] && four[1] == raw[j + 1] && four[2] == raw[j + 2] && four[3]
                == raw[j + 3]);
            if j + 4 <= n {
                assert(head.subrange(j, j + 4) =~= mark);
                assert(occurs_at(head, mark, j));
            } else if j + 2 == n {
                assert(raw[j + 1] == head.last());
            } else if j + 1 == n {
                assert(raw[n] == '\r');
            } else {
                assert(raw[n] == '\r');
            }
        }
    }
    assert(find_text(raw, mark, 0) == Some(n));
    assert(raw.take(n) =~= head);
    assert(raw.skip(n + 4) =~= body);
}

/// A mail without an empty line is all header.
pub proof fn law_a_mail_without_empty_line_is_all_header(raw: Seq<char>)
    requires
        !contains_text(raw, "\n\n"@),
        !contains_text(raw, "\r\n\r\n"@),
    ensures
        header_block(raw) == raw,
        mail_body(raw).len() == 0,
{
    lemma_find_text(raw, "\r\n\r\n"@, 0);
    lemma_find_text(raw, "\n\n"@, 0);
    if let Some(i) = find_text(raw, "\r\n\r\n"@, 0) {
        assert(occurs_at(raw, "\r\n\r\n"@, i));
    }
    if let Some(i) = find_text(raw, "\n\n"@, 0) {
        assert(occurs_at(raw, "\n\n"@, i));
    }
    assert(raw.take(raw.len() as int) =~= raw);
}

// ---------------------------------------------------------------------------
// Header fields
// ---------------------------------------------------------------------------

/// `row` is a field with a name that differs from `name` in more than case, or
/// no field at all.
pub open spec fn is_other_field(row: Seq<char>, name: Seq<char>) -> bool {
    ||| !row.contains(':')
    ||| exists|own: Seq<char>, value: Seq<char>|
        !own.contains(':') && lowercase(own) != lowercase(name) && row == #[trigger] (own
            + seq![':'] + value)
}

/// The texts of `rows` from `lo` up to `hi`, each trimmed and with a space
/// before it.
pub open spec fn spaced(rows: Seq<Seq<char>>, lo: int, hi: int) -> Seq<char>
    decreases hi - lo,
{
    if hi <= lo {
        seq![]
    } else {
        spaced(rows, lo, hi - 1) + seq![' '] + trim(rows[hi - 1])
    }
}

proof fn lemma_other_field(row: Seq<char>, name: Seq<char>)
    requires
        is_other_field(row, name),
    ensures
        !names_field(row, name, in_lowercase()),
{
    if !row.contains(':') {
        law_first_mark(row, ':', seq![]);
    } else {
        let (own, value) = choose|own: Seq<char>, value: Seq<char>|
            !own.contains(':') && lowercase(own) != lowercase(name) && row == #[trigger] (own
                + seq![':'] + value);
        law_first_mark(own, ':', value);
        assert(row.take(own.len() as int) =~= own);
    }
}

proof fn lemma_field_line(rows: Seq<Seq<char>>, name: Seq<char>, from: int, k: int)
    requires
        0 <= from <= k <= rows.len(),
        forall|j: int| from <= j < k ==> is_other_field(#[trigger] rows[j], name),
        k < rows.len() ==> names_field(rows[k], name, in_lowercase()),
    ensures
        field_line(rows, name, in_lowercase(), from) == if k < rows.len() {
            Some(k)
        } else {
            None
        },
    decreases k - from,
{
    if from < k {
        lemma_other_field(rows[from], name);
        lemma_field_line(rows, name, from + 1, k);
    }
}

proof fn lemma_folded(rows: Seq<Seq<char>>, lo: int, hi: int)
    requires
        0 <= lo <= hi <= rows.len(),
        forall|j: int| lo <= j < hi ==> continues(#[trigger] rows[j]),
        hi < rows.len() ==> !continues(rows[hi]),
    ensures
        folded(rows, lo) == spaced(rows, lo, hi),
    decreases hi - lo,
{
    if lo < hi {
        lemma_folded(rows, lo + 1, hi);
        lemma_spaced_front(rows, lo, hi);
        assert(continues(rows[lo]));
    }
}

proof fn lemma_spaced_front(rows: Seq<Seq<char>>, lo: int, hi: int)
    requires
        lo < hi,
    ensures
        spaced(rows, lo, hi) == seq![' '] + trim(rows[lo]) + spaced(rows, lo + 1, hi),
    decreases hi - lo,
{
    if lo + 1 < hi {
        lemma_spaced_front(rows, lo, hi - 1);
        assert(spaced(rows, lo, hi) =~= seq![' '] + trim(rows[lo]) + spaced(rows, lo + 1, hi));
    } else {
        assert(spaced(rows, lo, hi - 1) =~= seq![]);
        assert(spaced(rows, lo + 1, hi) =~= seq![]);
        assert(spaced(rows, lo, hi) =~= seq![' '] + trim(rows[lo]) + spaced(rows, lo + 1, hi));
    }
}

/// A field is read from the first row that has its name, in whatever case: its
/// value is what stands behind the first colon, and the rows below that start
/// with a blank are joined to it with one space each. Rows further down,
/// another field of that name among them, play no part.
pub proof fn law_the_first_field_of_a_name_is_read(
    headers: Seq<char>,
    k: int,
    hi: int,
    own: Seq<char>,
    value: Seq<char>,
    name: Seq<char>,
)
    requires
        0 <= k < hi <= lines(headers).len(),
        lines(headers)[k] == own + seq![':'] + value,
        !own.contains(':'),
        lowercase(own) == lowercase(name),
        forall|j: int| 0 <= j < k ==> is_other_field(#[trigger] lines(headers)[j], name),
        forall|j: int|
            k < j < hi ==> (#[trigger] lines(headers)[j]).len() > 0 && (lines(headers)[j][0] == ' '
                || lines(headers)[j][0] == '\t'),
        hi < lines(headers).len() && lines(headers)[hi].len() > 0 ==> lines(headers)[hi][0] != ' '
            && lines(headers)[hi][0] != '\t',
    ensures
        header_field(headers, name) == Some(trim(value) + spaced(lines(headers), k + 1, hi)),
{
    let rows = lines(headers);
    law_first_mark(own, ':', value);
    assert(rows[k].take(own.len() as int) =~= own);
    assert(names_field(rows[k], name, in_lowercase()));
    lemma_field_line(rows, name, 0, k);
    assert(rows[k].skip(own.len() as int + 1) =~= value);
    lemma_folded(rows, k + 1, hi);
}

/// A field that no row of the header has is not read.
pub proof fn law_a_missing_field_is_not_read(headers: Seq<char>, name: Seq<char>)
    requires
        forall|j: int|
            0 <= j < lines(headers).len() ==> is_other_field(#[trigger] lines(headers)[j], name),
    ensures
        header_field(headers, name) is None,
{
    lemma_field_line(lines(headers), name, 0, lines(headers).len() as int);
}

// ---------------------------------------------------------------------------
// A mail that is opened
// ---------------------------------------------------------------------------

/// The names of the fields that an opened mail shows, in their order.
pub open spec fn shown_names() -> Seq<Seq<char>> {
    seq!["From"@, "Date"@, "Subject"@, "To"@, "Cc"@, "Message-ID"@]
}

/// The rows for those of `names` that a header has: the name, a colon and a
/// space, and the decoded value.
pub open spec fn shown_rows(headers: Seq<char>, names: Seq<Seq<char>>) -> Seq<Seq<char>>
    decreases names.len(),
{
    if names.len() == 0 {
        seq![]
    } else {
        let rest = shown_rows(headers, names.skip(1));
        match header_field(headers, names[0]) {
            Some(v) => seq![names[0] + seq![':', ' '] + mime_decoded(v)] + rest,
            None => rest,
        }
    }
}

/// Line feeds alone.
pub open spec fn no_returns(n: nat) -> Seq<bool> {
    Seq::new(n, |i: int| false)
}

proof fn lemma_shown_step(headers: Seq<char>, names: Seq<Seq<char>>)
    requires
        names.len() > 0,
    ensures
        ({
            let all = shown_rows(headers, names);
            let rest = shown_rows(headers, names.skip(1));
            written_rows(all, no_returns(all.len())) == field_row(headers, names[0]) + written_rows(
                rest,
                no_returns(rest.len()),
            )
        }),
{
    reveal_strlit(": ");
    let all = shown_rows(headers, names);
    let rest = shown_rows(headers, names.skip(1));
    match header_field(headers, names[0]) {
        Some(v) => {
            assert(all.skip(1) =~= rest);
            assert(no_returns(all.len()).skip(1) =~= no_returns(rest.len()));
            assert(": "@ =~= seq![':', ' ']);
            assert(field_row(headers, names[0]) =~= all[0] + seq!['\n']);
        },
        None => {
            let below = written_rows(rest, no_returns(rest.len()));
            assert(field_row(headers, names[0]) + below =~= below);
        },
    }
}

/// An opened mail shows, above a rule, a row for each of the six fields `From`,
/// `Date`, `Subject`, `To`, `Cc` and `Message-ID` that its header has, in this
/// order and no other row. Below the rule stands its body as it is, or decoded
/// where the header says that it is quoted-printable.
pub proof fn law_an_opened_mail_shows_its_fields_and_its_body(raw: Seq<char>)
    ensures
        ({
            let headers = header_block(raw);
            let rows = shown_rows(headers, shown_names());
            let quoted = header_field(headers, "Content-Transfer-Encoding"@) matches Some(v)
                && trim(ascii_lowered(v)) == "quoted-printable"@;
            raw_mail_text(raw) == written_rows(rows, no_returns(rows.len())) + seq![
                '\n',
                '-',
                '-',
                '\n',
                '\n',
            ] + if quoted {
                utf8_text(unquoted(encode_utf8(mail_body(raw)), 0))
            } else {
                mail_body(raw)
            }
        }),
{
    let headers = header_block(raw);
    let rows = shown_rows(headers, shown_names());
    lemma_shown_head(headers);
    reveal_strlit("\n--\n\n");
    assert("\n--\n\n"@ =~= seq!['\n', '-', '-', '\n', '\n']);
    let body = if is_quoted(headers) {
        utf8_text(unquoted(encode_utf8(mail_body(raw)), 0))
    } else {
        mail_body(raw)
    };
    assert(raw_mail_text(raw) == shown_head(headers) + "\n--\n\n"@ + body);
}

/// The rows of the six fields, one behind the other.
spec fn shown_head(headers: Seq<char>) -> Seq<char> {
    field_row(headers, "From"@) + field_row(headers, "Date"@) + field_row(headers, "Subject"@)
        + field_row(headers, "To"@) + field_row(headers, "Cc"@) + field_row(headers, "Message-ID"@)
}

/// The rows for `names`, written one behind the other.
spec fn shown_block(headers: Seq<char>, names: Seq<Seq<char>>) -> Seq<char> {
    written_rows(shown_rows(headers, names), no_returns(shown_rows(headers, names).len()))
}

proof fn lemma_shown_first(headers: Seq<char>, name: Seq<char>, names: Seq<Seq<char>>)
    ensures
        shown_block(headers, seq![name] + names) == field_row(headers, name) + shown_block(
            headers,
            names,
        ),
{
    let all = seq![name] + names;
    lemma_shown_step(headers, all);
    assert(all.skip(1) =~= names);
}

proof fn lemma_joined_rows(
    a: Seq<char>,
    b: Seq<char>,
    c: Seq<char>,
    d: Seq<char>,
    e: Seq<char>,
    f: Seq<char>,
)
    ensures
        a + (b + (c + (d + (e + (f + Seq::<char>::empty()))))) == a + b + c + d + e + f,
{
    assert(a + (b + (c + (d + (e + (f + Seq::<char>::empty()))))) =~= a + b + c + d + e + f);
}

proof fn lemma_shown_head(headers: Seq<char>)
    ensures
        shown_block(headers, shown_names()) == shown_head(headers),
{
    let n6 = Seq::<Seq<char>>::empty();
    let n5 = seq!["Message-ID"@] + n6;
    let n4 = seq!["Cc"@] + n5;
    let n3 = seq!["To"@] + n4;
    let n2 = seq!["Subject"@] + n3;
    let n1 = seq!["Date"@] + n2;
    assert(seq!["From"@] + n1 =~= shown_names());
    lemma_shown_first(headers, "From"@, n1);
    lemma_shown_first(headers, "Date"@, n2);
    lemma_shown_first(headers, "Subject"@, n3);
    lemma_shown_first(headers, "To"@, n4);
    lemma_shown_first(headers, "Cc"@, n5);
    lemma_shown_first(headers, "Message-ID"@, n6);
    assert(shown_block(headers, n6) =~= Seq::<char>::empty());
    lemma_joined_rows(
        field_row(headers, "From"@),
        field_row(headers, "Date"@),
        field_row(headers, "Subject"@),
        field_row(headers, "To"@),
        field_row(headers, "Cc"@),
        field_row(headers, "Message-ID"@),
    );
}

/// `row` shows the field `name` of a header.
pub open spec fn is_row_of(headers: Seq<char>, name: Seq<char>, row: Seq<char>) -> bool {
    header_field(headers, name) matches Some(v) && row == name + seq![':', ' '] + mime_decoded(v)
}

/// `row` shows one of the fields `names` of a header.
pub open spec fn is_row_of_one(
    headers: Seq<char>,
    names: Seq<Seq<char>>,
    row: Seq<char>,
) -> bool {
    exists|j: int| 0 <= j < names.len() && is_row_of(headers, #[trigger] names[j], row)
}

/// A field that the header has is one of the rows of an opened mail, and every
/// row is the row of such a field.
pub proof fn law_every_shown_row_is_a_field(headers: Seq<char>, names: Seq<Seq<char>>, i: int)
    requires
        0 <= i < names.len(),
    ensures
        header_field(headers, names[i]) matches Some(v) ==> shown_rows(headers, names).contains(
            names[i] + seq![':', ' '] + mime_decoded(v),
        ),
        forall|k: int|
            0 <= k < shown_rows(headers, names).len() ==> is_row_of_one(
                headers,
                names,
                #[trigger] shown_rows(headers, names)[k],
            ),
    decreases names.len(),
{
    let rest = names.skip(1);
    let all = shown_rows(headers, names);
    let below = shown_rows(headers, rest);
    let shift: int = if header_field(headers, names[0]) is Some {
        1
    } else {
        0
    };
    assert forall|k: int| 0 <= k < below.len() implies all[k + shift] == #[trigger] below[k] by {}
    if rest.len() > 0 {
        law_every_shown_row_is_a_field(
            headers,
            rest,
            if i > 0 {
                i - 1
            } else {
                0
            },
        );
    }
    if let Some(v) = header_field(headers, names[i]) {
        let row = names[i] + seq![':', ' '] + mime_decoded(v);
        if i == 0 {
            assert(all[0] == row);
        } else {
            assert(rest[i - 1] == names[i]);
            let k = choose|k: int| 0 <= k < below.len() && below[k] == row;
            assert(all[k + shift] == row);
        }
    }
    assert forall|k: int| 0 <= k < all.len() implies is_row_of_one(
        headers,
        names,
        #[trigger] all[k],
    ) by {
        if k < shift {
            assert(is_row_of(headers, names[0], all[k]));
        } else {
            assert(all[k] == below[k - shift]);
            let j = choose|j: int|
                0 <= j < rest.len() && is_row_of(headers, #[trigger] rest[j], below[k - shift]);
            assert(is_row_of(headers, names[j + 1], all[k]));
        }
    }
}

// ---------------------------------------------------------------------------
// Authors
// ---------------------------------------------------------------------------

/// A sender with a name is shown by that name, whatever the address: white
/// space around the name goes, and so do the quotes around it, but nothing of
/// the name itself.
#[verifier::spinoff_prover]
#[verifier::rlimit(40)]
pub proof fn law_a_sender_is_shown_by_name(
    lead: Seq<char>,
    open: nat,
    name: Seq<char>,
    close: nat,
    gap: Seq<char>,
    address: Seq<char>,
)
    requires
        forall|i: int| 0 <= i < lead.len() ==> is_white(#[trigger] lead[i]),
        forall|i: int| 0 <= i < gap.len() ==> is_white(#[trigger] gap[i]),
        name.len() > 0,
        !name.contains('<'),
        name[0] != '"' && name.last() != '"',
        open == 0 ==> !is_white(name[0]),
        close == 0 ==> !is_white(name.last()),
    ensures
        pretty(
            lead + (repeated('"', open as int) + name + repeated('"', close as int)) + gap
                + seq!['<'] + address,
        ) == name,
{
    let whole = repeated('"', open as int) + name + repeated('"', close as int);
    let before = lead + whole + gap;
    let from = lead + whole + gap + seq!['<'] + address;
    assert(!before.contains('<')) by {
        if before.contains('<') {
            let j = choose|j: int| 0 <= j < before.len() && before[j] == '<';
            let n = lead.len();
            if j < n {
                assert(is_white(lead[j]));
            } else if j >= n + whole.len() {
                assert(is_white(gap[j - n - whole.len()]));
            } else if j >= n + open && j < n + open + name.len() {
                assert(name[j - n - open] == '<');
            }
        }
    }
    law_first_mark(before, '<', address);
    assert(from.take(before.len() as int) =~= before);
    assert(whole.len() > 0 && !is_white(whole[0]) && !is_white(whole.last()));
    law_trimming_takes_off_white_space(lead, whole, gap);
    law_marks_come_off_the_ends(open, name, close, '"');
}

/// A sender without a name is shown by the address between the brackets.
#[verifier::spinoff_prover]
#[verifier::rlimit(40)]
pub proof fn law_a_nameless_sender_is_shown_by_address(
    lead: Seq<char>,
    quotes: nat,
    gap: Seq<char>,
    address: Seq<char>,
    rest: Seq<char>,
)
    requires
        forall|i: int| 0 <= i < lead.len() ==> is_white(#[trigger] lead[i]),
        forall|i: int| 0 <= i < gap.len() ==> is_white(#[trigger] gap[i]),
        !address.contains('>'),
    ensures
        pretty(
            lead + repeated('"', quotes as int) + gap + seq!['<'] + address + seq!['>'] + rest,
        ) == address,
{
    let marks = repeated('"', quotes as int);
    let before = lead + marks + gap;
    let after = address + seq!['>'] + rest;
    let from = lead + marks + gap + seq!['<'] + address + seq!['>'] + rest;
    assert(from =~= before + seq!['<'] + after);
    assert(!before.contains('<')) by {
        if before.contains('<') {
            let j = choose|j: int| 0 <= j < before.len() && before[j] == '<';
            if j < lead.len() {
                assert(is_white(lead[j]));
            } else if j >= lead.len() + marks.len() {
                assert(is_white(gap[j - lead.len() - marks.len()]));
            }
        }
    }
    law_first_mark(before, '<', after);
    let start = before.len() as int;
    assert(from.take(start) =~= before);
    law_trimming_takes_off_white_space(lead, marks, gap);
    law_marks_come_off_the_ends(quotes, seq![], 0, '"');
    assert(marks + seq![] + repeated('"', 0) =~= marks);
    let end = start + 1 + address.len();
    assert(from[end as int] == '>');
    assert forall|i: int| start <= i < end implies from[i] != '>' by {
        if i > start {
            assert(from[i] == address[i - start - 1]);
            assert(address.contains(address[i - start - 1]));
        }
    }
    lemma_find_char(from, '>', start);
    assert(find_char(from, '>', start) == Some(end as int));
    assert(from.subrange(start + 1, end as int) =~= address);
}

/// A sender without brackets is shown as it is, without white space around it.
pub proof fn law_a_plain_sender_is_shown_as_it_is(from: Seq<char>)
    requires
        !from.contains('<'),
    ensures
        pretty(from) == trim(from),
{
    law_first_mark(from, '<', seq![]);
}

// ---------------------------------------------------------------------------
// Texts of encoded words
// ---------------------------------------------------------------------------

/// A byte that may stand for itself in a `Q` encoded word: a visible ASCII
/// character other than `=`, `?` and `_`.
pub open spec fn stands_for_itself(byte: u8) -> bool {
    33 <= byte <= 126 && byte != 61 && byte != 63 && byte != 95
}

/// `e` writes `bytes` as the text of a `Q` encoded word: a space as an
/// underscore, any byte as `=` and two hexadecimal digits, and a visible
/// character as itself.
pub open spec fn q_writes(e: Seq<char>, bytes: Seq<u8>) -> bool
    decreases bytes.len(),
{
    if bytes.len() == 0 {
        e.len() == 0
    } else {
        ||| {
            &&& e.len() > 0
            &&& e[0] == '_'
            &&& bytes[0] == 32
            &&& q_writes(e.skip(1), bytes.skip(1))
        }
        ||| {
            &&& e.len() > 0
            &&& stands_for_itself(bytes[0])
            &&& e[0] == bytes[0] as char
            &&& q_writes(e.skip(1), bytes.skip(1))
        }
        ||| {
            &&& e.len() > 2
            &&& e[0] == '='
            &&& is_digit_of(e[1], bytes[0] as int / 16)
            &&& is_digit_of(e[2], bytes[0] as int % 16)
            &&& q_writes(e.skip(3), bytes.skip(1))
        }
    }
}

#[verifier::spinoff_prover]
#[verifier::rlimit(40)]
proof fn lemma_q_writes(e: Seq<char>, bytes: Seq<u8>)
    requires
        q_writes(e, bytes),
    ensures
        q_bytes(encode_utf8(e), 0) == bytes,
        one_piece(e),
    decreases bytes.len(),
{
    let b = encode_utf8(e);
    if bytes.len() == 0 {
        assert(q_bytes(b, 0) =~= bytes);
    } else {
        let tail = bytes.skip(1);
        if e[0] != '=' {
            assert('\0' <= e[0] <= '\u{7f}');
            assert(!is_white(e[0]) && e[0] != '?');
            lemma_encode_ascii_head(e, 1);
            lemma_q_bytes_from(b, 1, 0);
            lemma_q_writes(e.skip(1), tail);
            assert(b[0] == e[0] as u8);
            assert(seq![bytes[0]] + tail =~= bytes);
            lemma_one_piece(e, 1);
        } else {
            lemma_hex_of_digit(e[1], bytes[0] as int / 16);
            lemma_hex_of_digit(e[2], bytes[0] as int % 16);
            lemma_encode_ascii_head(e, 3);
            lemma_q_bytes_from(b, 3, 0);
            lemma_q_writes(e.skip(3), tail);
            assert(b[0] == 61 && b[1] == e[1] as u8 && b[2] == e[2] as u8);
            assert(escaped(b, 0) == Some(bytes[0]));
            assert(seq![bytes[0]] + tail =~= bytes);
            lemma_one_piece(e, 3);
        }
    }
}

proof fn lemma_one_piece(e: Seq<char>, n: int)
    requires
        0 <= n <= e.len(),
        forall|i: int| 0 <= i < n ==> #[trigger] e[i] != '?' && !is_white(e[i]),
        one_piece(e.skip(n)),
    ensures
        one_piece(e),
{
    assert forall|i: int| 0 <= i < e.len() implies #[trigger] e[i] != '?' && !is_white(e[i]) by {
        if i >= n {
            assert(e[i] == e.skip(n)[i - n]);
        }
    }
}

/// Bytes written as the text of a `Q` encoded word, in whatever mixed form,
/// read back; and so does a text out of a word in such a form.
pub proof fn law_q_text_reads_back(charset: Seq<char>, e: Seq<char>, text: Seq<char>, bytes: Seq<u8>)
    requires
        !charset.contains('?'),
        q_writes(e, bytes),
    ensures
        q_bytes(encode_utf8(e), 0) == bytes,
        mime_decoded(word_text(charset, 'Q', e)) == utf8_text(bytes),
        mime_decoded(word_text(charset, 'q', e)) == utf8_text(bytes),
        bytes == encode_utf8(text) ==> mime_decoded(word_text(charset, 'q', e)) == text,
{
    lemma_q_writes(e, bytes);
    encode_utf8_valid_utf8(text);
    encode_utf8_decode_utf8(text);
    assert(seq!['Q'][0] == 'Q' && seq!['q'][0] == 'q' && seq!['B'][0] == 'B' && seq!['b'][0]
        == 'b');
    law_encoded_word_is_decoded(charset, 'Q', e, bytes);
    law_encoded_word_is_decoded(charset, 'q', e, bytes);
}

/// Text without an escape and without an underscore stands for its own bytes.
pub proof fn law_plain_q_text_is_itself(b: Seq<u8>, i: int)
    requires
        0 <= i <= b.len(),
        forall|j: int| 0 <= j < b.len() ==> #[trigger] b[j] != 61 && b[j] != 95,
    ensures
        q_bytes(b, i) == b.skip(i),
    decreases b.len() - i,
{
    if i < b.len() {
        law_plain_q_text_is_itself(b, i + 1);
        assert(seq![b[i]] + b.skip(i + 1) =~= b.skip(i));
    } else {
        assert(q_bytes(b, i) =~= b.skip(i));
    }
}

// ---------------------------------------------------------------------------
// Headers with encoded words
// ---------------------------------------------------------------------------

/// The parts of an encoded word, and the bytes that its text stands for.
pub struct WordParts {
    pub charset: Seq<char>,
    pub encoding: char,
    pub text: Seq<char>,
    pub bytes: Seq<u8>,
}

impl WordParts {
    /// The parts make an encoded word of `bytes`.
    pub open spec fn wf(self) -> bool {
        &&& !self.charset.contains('?')
        &&& !self.text.contains('?')
        &&& self.text.len() > 0 && self.text[0] == '=' ==> one_piece(self.text)
        &&& word_bytes(seq![self.encoding], self.text) == Some(self.bytes)
    }

    /// The word as it is written.
    pub open spec fn written(self) -> Seq<char> {
        word_text(self.charset, self.encoding, self.text)
    }
}

/// A header: before each of `words` stands a plain text, and `tail` at its end.
pub open spec fn header_of(
    plains: Seq<Seq<char>>,
    words: Seq<WordParts>,
    tail: Seq<char>,
) -> Seq<char>
    decreases words.len(),
{
    if words.len() == 0 {
        tail
    } else {
        plains[0] + words[0].written() + header_of(plains.skip(1), words.skip(1), tail)
    }
}

/// What such a header says: the plain texts, but for white space between two
/// words, and the texts of the words. `behind` tells that a word stands right
/// before.
pub open spec fn header_says(
    plains: Seq<Seq<char>>,
    words: Seq<WordParts>,
    tail: Seq<char>,
    behind: bool,
) -> Seq<char>
    decreases words.len(),
{
    if words.len() == 0 {
        tail
    } else {
        let blank = forall|i: int| 0 <= i < plains[0].len() ==> is_white(#[trigger] plains[0][i]);
        (if behind && blank {
            Seq::<char>::empty()
        } else {
            plains[0]
        }) + utf8_text(words[0].bytes) + header_says(plains.skip(1), words.skip(1), tail, true)
    }
}

proof fn lemma_find_text_from(s: Seq<char>, needle: Seq<char>, k: int, i: int)
    requires
        0 <= k <= s.len(),
        0 <= i,
    ensures
        find_text(s, needle, k + i) == match find_text(s.skip(k), needle, i) {
            Some(j) => Some(k + j),
            None => None,
        },
    decreases s.len() - i + 1,
{
    let t = s.skip(k);
    if k + i + needle.len() <= s.len() {
        assert(s.subrange(k + i, k + i + needle.len()) =~= t.subrange(i, i + needle.len()));
        assert(occurs_at(s, needle, k + i) == occurs_at(t, needle, i));
        if !occurs_at(t, needle, i) {
            lemma_find_text_from(s, needle, k, i + 1);
        }
    }
}

proof fn lemma_word_end_from(s: Seq<char>, k: int, i: int)
    requires
        0 <= k <= s.len(),
        0 <= i,
    ensures
        word_end(s, k + i) == match word_end(s.skip(k), i) {
            Some(j) => Some(k + j),
            None => None,
        },
{
    let t = s.skip(k);
    lemma_find_text_from(s, "?="@, k, i + 2);
    lemma_find_char_from(s, '?', k, i + 2);
    if let Some(a) = find_char(t, '?', i + 2) {
        lemma_find_char_bounds(t, '?', i + 2);
        lemma_find_char_from(s, '?', k, a + 1);
        if let Some(b) = find_char(t, '?', a + 1) {
            lemma_find_char_bounds(t, '?', a + 1);
            lemma_find_text_from(s, "?="@, k, b + 1);
            if let Some(end) = find_text(t, "?="@, b + 1) {
                lemma_find_text_bounds(t, "?="@, b + 1);
                assert(s.subrange(k + b + 1, k + end) =~= t.subrange(b + 1, end));
                assert(s.subrange(k + i + 2, k + end) =~= t.subrange(i + 2, end));
            }
        }
    }
}

/// A header from a place on decodes as it does on its own.
#[verifier::spinoff_prover]
#[verifier::rlimit(40)]
proof fn lemma_mime_from(s: Seq<char>, k: int, i: int, encoded: bool)
    requires
        0 <= k <= s.len(),
        0 <= i,
    ensures
        mime_from(s, k + i, encoded) == mime_from(s.skip(k), i, encoded),
    decreases s.len() - k - i,
{
    let t = s.skip(k);
    if k + i < s.len() {
        reveal_strlit("=?");
        reveal_strlit("?=");
        lemma_find_text_from(s, "=?"@, k, i);
        lemma_find_text_bounds(t, "=?"@, i);
        match find_text(t, "=?"@, i) {
            None => {
                assert(s.skip(k + i) =~= t.skip(i));
            },
            Some(start) => {
                assert(s.subrange(k + i, k + start) =~= t.subrange(i, start));
                assert(between_words(s, k + i, k + start, encoded) == between_words(
                    t,
                    i,
                    start,
                    encoded,
                ));
                lemma_word_end_from(s, k, start);
                lemma_word_end_bounds(t, start);
                match word_end(t, start) {
                    None => lemma_mime_from(s, k, start + 2, false),
                    Some(end) => {
                        assert(s.subrange(k + start + 2, k + end) =~= t.subrange(start + 2, end));
                        lemma_mime_from(s, k, end + 2, true);
                        lemma_mime_from(s, k, end + 2, false);
                    },
                }
            },
        }
    }
}

/// An encoded word is read up to its own end, whatever follows.
#[verifier::spinoff_prover]
#[verifier::rlimit(40)]
proof fn lemma_word_here(w: WordParts, rest: Seq<char>)
    requires
        w.wf(),
    ensures
        ({
            let s = w.written() + rest;
            let end = w.written().len() - 2;
            &&& end >= 2
            &&& word_end(s, 0) == Some(end)
            &&& encoded_word(s.subrange(2, end)) == Some(utf8_text(w.bytes))
            &&& s.take(2) == "=?"@
        }),
{
    reveal_strlit("=?");
    reveal_strlit("?=");
    let charset = w.charset;
    let encoding = w.encoding;
    let text = w.text;
    let s = w.written() + rest;
    let i: int = 2 + charset.len() as int;
    let j: int = i + 2;
    let end: int = j + 1 + text.len() as int;
    assert(encoding != '?' && encoding != '=') by {
        assert(seq![encoding][0] == encoding);
        assert(seq!['B'][0] == 'B' && seq!['b'][0] == 'b');
        assert(seq!['Q'][0] == 'Q' && seq!['q'][0] == 'q');
    }
    assert(w.written().len() == end + 2);
    assert(s.take(2) =~= "=?"@);
    assert forall|k: int| 0 <= k < charset.len() implies charset[k] != '?' by {
        assert(charset.contains(charset[k]));
    }
    assert forall|k: int| 0 <= k < text.len() implies text[k] != '?' by {
        assert(text.contains(text[k]));
    }
    assert forall|k: int| 2 <= k < i implies s[k] != '?' by {
        assert(s[k] == charset[k - 2]);
    }
    assert(s[i] == '?' && s[i + 1] == encoding && s[j] == '?');
    assert forall|k: int| j + 1 <= k < end implies s[k] != '?' by {
        assert(s[k] == text[k - j - 1]);
    }
    lemma_find_char(s, '?', 2);
    assert(find_char(s, '?', 2) == Some(i));
    lemma_find_char(s, '?', i + 1);
    assert(find_char(s, '?', i + 1) == Some(j));
    lemma_find_text(s, "?="@, j + 1);
    assert(s.subrange(end, end + 2) =~= "?="@);
    assert(occurs_at(s, "?="@, end));
    assert(find_text(s, "?="@, j + 1) == Some(end)) by {
        let found = find_text(s, "?="@, j + 1)->0;
        if found < end {
            assert(s.subrange(found, found + 2)[0] == s[found]);
        }
    }
    let body = s.subrange(2, end);
    assert(encoded_word(body) == Some(utf8_text(w.bytes))) by {
        assert forall|k: int| 0 <= k < charset.len() implies body[k] != '?' by {
            assert(body[k] == s[k + 2]);
        }
        assert(body[i - 2] == '?' && body[i - 1] == encoding && body[j - 2] == '?');
        lemma_find_char(body, '?', 0);
        assert(find_char(body, '?', 0) == Some(i - 2));
        lemma_find_char(body, '?', i - 1);
        assert(find_char(body, '?', i - 1) == Some(j - 2));
        assert(body.subrange(i - 1, j - 2) =~= seq![encoding]);
        assert(body.skip(j - 1) =~= text);
    }
    assert(s.subrange(j + 1, end) =~= text);
    if !one_piece(text) {
        lemma_find_text(s, "?="@, 2);
        let found = find_text(s, "?="@, 2)->0;
        if found < end {
            assert(s.subrange(found, found + 2)[0] == s[found]);
            assert(s.subrange(found, found + 2)[1] == s[found + 1]);
            assert(found == i || found == j);
            if text.len() > 0 {
                assert(s[j + 1] == text[0]);
            }
        }
    }
}

/// A header decodes piece by piece: each encoded word to its text, each plain
/// text to itself, and white space between two encoded words to nothing.
#[verifier::spinoff_prover]
#[verifier::rlimit(40)]
pub proof fn law_headers_are_decoded_piece_by_piece(
    plains: Seq<Seq<char>>,
    words: Seq<WordParts>,
    tail: Seq<char>,
    behind: bool,
)
    requires
        plains.len() == words.len(),
        forall|i: int| 0 <= i < words.len() ==> (#[trigger] words[i]).wf(),
        forall|i: int| 0 <= i < plains.len() ==> !contains_text(#[trigger] plains[i], "=?"@),
        !contains_text(tail, "=?"@),
    ensures
        mime_from(header_of(plains, words, tail), 0, behind) == header_says(
            plains,
            words,
            tail,
            behind,
        ),
        mime_decoded(header_of(plains, words, tail)) == header_says(plains, words, tail, false),
{
    lemma_pieces(plains, words, tail, behind);
    lemma_pieces(plains, words, tail, false);
}

#[verifier::spinoff_prover]
#[verifier::rlimit(40)]
proof fn lemma_pieces(
    plains: Seq<Seq<char>>,
    words: Seq<WordParts>,
    tail: Seq<char>,
    behind: bool,
)
    requires
        plains.len() == words.len(),
        forall|i: int| 0 <= i < words.len() ==> (#[trigger] words[i]).wf(),
        forall|i: int| 0 <= i < plains.len() ==> !contains_text(#[trigger] plains[i], "=?"@),
        !contains_text(tail, "=?"@),
    ensures
        mime_from(header_of(plains, words, tail), 0, behind) == header_says(
            plains,
            words,
            tail,
            behind,
        ),
    decreases words.len(),
{
    reveal_strlit("=?");
    reveal_strlit("?=");
    let s = header_of(plains, words, tail);
    if words.len() == 0 {
        lemma_find_text(tail, "=?"@, 0);
        if let Some(i) = find_text(tail, "=?"@, 0) {
            assert(occurs_at(tail, "=?"@, i));
        }
        assert(tail.skip(0) =~= tail);
        assert(mime_from(s, 0, behind) =~= tail);
    } else {
        let p = plains[0];
        let w = words[0];
        let rest = header_of(plains.skip(1), words.skip(1), tail);
        let t = w.written() + rest;
        assert(s =~= p + t);
        lemma_word_here(w, rest);
        let start = p.len() as int;
        assert(s.skip(start) =~= t);
        let end = w.written().len() - 2;
        // Where the first word opens.
        assert(find_text(s, "=?"@, 0) == Some(start)) by {
            assert(s.subrange(start, start + 2) =~= t.take(2));
            assert(occurs_at(s, "=?"@, start));
            lemma_find_text(s, "=?"@, 0);
            let found = find_text(s, "=?"@, 0)->0;
            if found < start {
                assert(occurs_at(s, "=?"@, found));
                let two = s.subrange(found, found + 2);
                assert(two[0] == s[found] && two[1] == s[found + 1]);
                if found + 2 <= start {
                    assert(p.subrange(found, found + 2) =~= "=?"@);
                    assert(occurs_at(p, "=?"@, found));
                } else {
                    assert(s[start] == t.take(2)[0]);
                }
            }
        }
        lemma_word_end_from(s, start, 0);
        assert(word_end(s, start) == Some(start + end));
        assert(s.subrange(start + 2, start + end) =~= t.subrange(2, end));
        lemma_mime_from(s, start + end + 2, 0, true);
        assert(s.skip(start + end + 2) =~= rest);
        assert forall|i: int| 0 <= i < words.skip(1).len() implies (
        #[trigger] words.skip(1)[i]).wf() by {
            assert(words.skip(1)[i] == words[i + 1]);
        }
        assert forall|i: int| 0 <= i < plains.skip(1).len() implies !contains_text(
            #[trigger] plains.skip(1)[i],
            "=?"@,
        ) by {
            assert(plains.skip(1)[i] == plains[i + 1]);
        }
        lemma_pieces(plains.skip(1), words.skip(1), tail, true);
        assert(s.subrange(0, start) =~= p);
        assert(mime_from(s, 0, behind) == between_words(s, 0, start, behind) + utf8_text(w.bytes)
            + mime_from(s, start + end + 2, true));
    }
}

/// A word in an encoding other than base64 and `Q` is left as it is written,
/// and so is the white space behind it.
#[verifier::spinoff_prover]
#[verifier::rlimit(40)]
pub proof fn law_words_in_other_encodings_stay(
    charset: Seq<char>,
    encoding: char,
    text: Seq<char>,
    rest: Seq<char>,
)
    requires
        !charset.contains('?'),
        !text.contains('?'),
        text.len() > 0 ==> text[0] != '=' && text.last() != '=',
        encoding != '?' && encoding != '=',
        encoding != 'B' && encoding != 'b' && encoding != 'Q' && encoding != 'q',
    ensures
        mime_decoded(word_text(charset, encoding, text) + rest) == word_text(
            charset,
            encoding,
            text,
        ) + mime_decoded(rest),
{
    reveal_strlit("=?");
    reveal_strlit("?=");
    let word = word_text(charset, encoding, text);
    let s = word + rest;
    let i: int = 2 + charset.len() as int;
    let j: int = i + 2;
    let end: int = j + 1 + text.len() as int;
    assert(s.subrange(0, 2) =~= "=?"@);
    assert(occurs_at(s, "=?"@, 0));
    assert forall|k: int| 0 <= k < charset.len() implies charset[k] != '?' by {
        assert(charset.contains(charset[k]));
    }
    assert forall|k: int| 0 <= k < text.len() implies text[k] != '?' by {
        assert(text.contains(text[k]));
    }
    assert forall|k: int| 2 <= k < i implies s[k] != '?' by {
        assert(s[k] == charset[k - 2]);
    }
    assert forall|k: int| j + 1 <= k < end implies s[k] != '?' by {
        assert(s[k] == text[k - j - 1]);
    }
    assert(s[i] == '?' && s[i + 1] == encoding && s[j] == '?');
    assert(s.subrange(end, end + 2) =~= "?="@);
    assert(occurs_at(s, "?="@, end));
    lemma_find_text(s, "?="@, 2);
    assert(find_text(s, "?="@, 2) == Some(end)) by {
        let found = find_text(s, "?="@, 2)->0;
        if found < end {
            assert(s.subrange(found, found + 2)[0] == s[found]);
            assert(s.subrange(found, found + 2)[1] == s[found + 1]);
            assert(found == i || found == j);
            if text.len() > 0 {
                assert(s[j + 1] == text[0]);
            }
        }
    }
    lemma_find_char(s, '?', 2);
    assert(find_char(s, '?', 2) == Some(i));
    lemma_find_char(s, '?', i + 1);
    assert(find_char(s, '?', i + 1) == Some(j));
    lemma_find_text(s, "?="@, j + 1);
    assert(find_text(s, "?="@, j + 1) == Some(end));
    let body = s.subrange(2, end);
    assert(encoded_word(body) is None) by {
        assert forall|k: int| 0 <= k < charset.len() implies body[k] != '?' by {
            assert(body[k] == s[k + 2]);
        }
        assert(body[i - 2] == '?' && body[i - 1] == encoding && body[j - 2] == '?');
        lemma_find_char(body, '?', 0);
        assert(find_char(body, '?', 0) == Some(i - 2));
        lemma_find_char(body, '?', i - 1);
        assert(find_char(body, '?', i - 1) == Some(j - 2));
        assert(body.subrange(i - 1, j - 2) =~= seq![encoding]);
        assert(seq![encoding][0] == encoding);
        assert(seq!['B'][0] == 'B' && seq!['b'][0] == 'b');
        assert(seq!['Q'][0] == 'Q' && seq!['q'][0] == 'q');
    }
    assert(word_end(s, 0) == Some(end));
    assert(find_text(s, "=?"@, 0) == Some(0int));
    assert(between_words(s, 0, 0, false) =~= seq![]);
    lemma_mime_from(s, end + 2, 0, false);
    assert(s.skip(end + 2) =~= rest);
    assert("=?"@ + body + "?="@ =~= word);
    assert(mime_decoded(s) =~= word + mime_decoded(rest));
}

/// A header in which no encoded word ends is left as it is, whatever opens in
/// it.
pub proof fn law_open_words_stay(s: Seq<char>)
    requires
        !contains_text(s, "?="@),
    ensures
        mime_decoded(s) == s,
{
    lemma_open_words_stay(s, 0);
    assert(s.skip(0) =~= s);
}

proof fn lemma_open_words_stay(s: Seq<char>, pos: int)
    requires
        !contains_text(s, "?="@),
        0 <= pos <= s.len(),
    ensures
        mime_from(s, pos, false) == s.skip(pos),
    decreases s.len() - pos,
{
    if pos < s.len() {
        reveal_strlit("=?");
        lemma_find_text(s, "=?"@, pos);
        if let Some(start) = find_text(s, "=?"@, pos) {
            lemma_never_ends(s, start);
            lemma_open_words_stay(s, start + 2);
            assert(s.subrange(start, start + 2) == "=?"@);
            assert(s.subrange(pos, start) + s.subrange(start, start + 2) + s.skip(start + 2)
                =~= s.skip(pos));
        }
    } else {
        assert(mime_from(s, pos, false) =~= s.skip(pos));
    }
}

proof fn lemma_never_ends(s: Seq<char>, start: int)
    requires
        !contains_text(s, "?="@),
        0 <= start,
    ensures
        word_end(s, start) is None,
{
    lemma_no_mark(s, start + 2);
    if let Some(i) = find_char(s, '?', start + 2) {
        lemma_find_char_bounds(s, '?', start + 2);
        if let Some(j) = find_char(s, '?', i + 1) {
            lemma_find_char_bounds(s, '?', i + 1);
            lemma_no_mark(s, j + 1);
        }
    }
}

proof fn lemma_no_mark(s: Seq<char>, from: int)
    requires
        !contains_text(s, "?="@),
        0 <= from,
    ensures
        find_text(s, "?="@, from) is None,
{
    lemma_find_text(s, "?="@, from);
    if let Some(i) = find_text(s, "?="@, from) {
        assert(occurs_at(s, "?="@, i));
    }
}

/// A hexadecimal digit, of either case.
pub open spec fn is_hex(b: u8) -> bool {
    48 <= b <= 57 || 65 <= b <= 70 || 97 <= b <= 102
}

/// Where `=` stands in `b`, no two hexadecimal digits follow it.
pub open spec fn no_escapes(b: Seq<u8>) -> bool {
    forall|i: int|
        0 <= i < b.len() - 2 && #[trigger] b[i] == 61 ==> !(is_hex(b[i + 1]) && is_hex(b[i + 2]))
}

/// An equals sign that starts no escape is kept, in the text of a `Q` encoded
/// word as in a quoted-printable body; in a body it must not stand at the end
/// of a line either.
pub proof fn law_stray_marks_are_kept(b: Seq<u8>, i: int)
    requires
        no_escapes(b),
        0 <= i <= b.len(),
    ensures
        (forall|j: int| 0 <= j < b.len() ==> #[trigger] b[j] != 95) ==> q_bytes(b, i) == b.skip(i),
        (forall|j: int|
            0 <= j < b.len() - 1 && #[trigger] b[j] == 61 ==> b[j + 1] != 10 && b[j + 1] != 13)
            ==> unquoted(b, i) == b.skip(i),
    decreases b.len() - i,
{
    if i < b.len() {
        law_stray_marks_are_kept(b, i + 1);
        assert(seq![b[i]] + b.skip(i + 1) =~= b.skip(i));
        if b[i] == 61 {
            lemma_no_escape_here(b, i);
        }
    } else {
        assert(q_bytes(b, i) =~= b.skip(i));
        assert(unquoted(b, i) =~= b.skip(i));
    }
}

proof fn lemma_no_escape_here(b: Seq<u8>, i: int)
    requires
        no_escapes(b),
        0 <= i < b.len(),
        b[i] == 61,
    ensures
        escaped(b, i) is None,
{
    if i + 2 < b.len() {
        assert(!(is_hex(b[i + 1]) && is_hex(b[i + 2])));
    }
}

/// An escape is one byte, by the values of its two digits, and a soft line
/// break is none; what stands around them is decoded on its own.
pub proof fn law_escapes_are_decoded_on_their_own(b: Seq<u8>, i: int)
    requires
        0 <= i < b.len(),
    ensures
        b[i] != 61 ==> unquoted(b, i) == seq![b[i]] + unquoted(b, i + 1),
        i + 2 < b.len() && b[i] == 61 && 48 <= b[i + 1] <= 57 && 48 <= b[i + 2] <= 57 ==> unquoted(
            b,
            i,
        ) == seq![((b[i + 1] - 48) * 16 + (b[i + 2] - 48)) as u8] + unquoted(b, i + 3),
        i + 1 < b.len() && b[i] == 61 && b[i + 1] == 10 ==> unquoted(b, i) == unquoted(b, i + 2),
        i + 2 < b.len() && b[i] == 61 && b[i + 1] == 13 && b[i + 2] == 10 ==> unquoted(b, i)
            == unquoted(b, i + 3),
        i + 1 == b.len() && b[i] == 61 ==> unquoted(b, i) == seq![61u8],
{
    if i + 1 == b.len() && b[i] == 61 {
        assert(unquoted(b, i + 1) =~= Seq::<u8>::empty());
        assert(unquoted(b, i) =~= seq![61u8]);
    }
}

/// The letter of an encoding may have either case, `B` names base64, and `Q`
/// the other encoding; there is no third.
pub proof fn law_an_encoding_is_named_by_its_letter(e: char, text: Seq<char>)
    ensures
        e == 'B' || e == 'b' ==> word_bytes(seq![e], text) == base64_bytes(encode_utf8(text)),
        e == 'Q' || e == 'q' ==> word_bytes(seq![e], text) == Some(q_bytes(encode_utf8(text), 0)),
        e != 'B' && e != 'b' && e != 'Q' && e != 'q' ==> word_bytes(seq![e], text) is None,
{
    assert(seq![e][0] == e);
    assert(seq!['B'][0] == 'B' && seq!['b'][0] == 'b');
    assert(seq!['Q'][0] == 'Q' && seq!['q'][0] == 'q');
}

/// A text in which a character stands that base64 does not know is no base64,
/// unless the padding that ends the data comes before it.
pub proof fn law_foreign_characters_are_no_base64(b: Seq<u8>, i: int, k: int)
    requires
        0 <= i <= k < b.len(),
        forall|j: int| i <= j < k ==> #[trigger] b[j] != 61,
        !(65 <= b[k] <= 90 || 97 <= b[k] <= 122 || 47 <= b[k] <= 57 || b[k] == 43 || b[k] == 61),
        !(b[k] == 9 || b[k] == 10 || b[k] == 12 || b[k] == 13 || b[k] == 32),
    ensures
        sextets(b, i) is None,
        i == 0 ==> base64_bytes(b) is None,
    decreases k - i,
{
    if i < k {
        law_foreign_characters_are_no_base64(b, i + 1, k);
    }
}

} // verus!
