//! Reading a raw mail: its header fields and its body.

use vstd::prelude::*;
use vstd::utf8::{
    char_u32_cast, encode_scalar, encode_utf8, encode_utf8_decode_utf8, encode_utf8_valid_utf8,
    is_ascii_chars, is_ascii_chars_encode_utf8,
};

use crate::archive::{decode_mime_header, mime_decoded};
use crate::clock::{
    day_after, day_before, is_clock_time, is_date, next_day, previous_day, some_clock_shows,
    DateRange, Moment,
};
use crate::outside::{
    from_utf8_lossy, local_moment, local_today, lowercase, utf8_text,
};
use crate::text::{
    all_digits, are_digits, ascii_lower, chars_of, digits_value, find, find_char, find_mark,
    find_text, is_digit, is_white, lemma_find_char_bounds, lemma_find_text, lines, lines_from,
    opt_text, part, push_range, read_number, same, split_lines, string_of, strip_return, trim,
    trimmed, views,
};

verus! {

/// Where the header of a raw mail ends and where its body starts: around the
/// first empty line, looked for with carriage returns first.
pub open spec fn header_split(raw: Seq<char>) -> (int, int) {
    match find_text(raw, "\r\n\r\n"@, 0) {
        Some(i) => (i, i + 4),
        None => match find_text(raw, "\n\n"@, 0) {
            Some(i) => (i, i + 2),
            None => (raw.len() as int, raw.len() as int),
        },
    }
}

/// The header block of a raw mail.
pub open spec fn header_block(raw: Seq<char>) -> Seq<char> {
    raw.take(header_split(raw).0)
}

/// The body of a raw mail.
pub open spec fn mail_body(raw: Seq<char>) -> Seq<char> {
    raw.skip(header_split(raw).1)
}

/// Finds where the header of a raw mail ends and where its body starts.
pub fn split_header(raw: &Vec<char>) -> (r: (usize, usize))
    ensures
        r.0 == header_split(raw@).0,
        r.1 == header_split(raw@).1,
        r.0 <= r.1 <= raw.len(),
{
    proof {
        reveal_strlit("\r\n\r\n");
        reveal_strlit("\n\n");
    }
    let crlf = chars_of("\r\n\r\n");
    if let Some(i) = find(raw, &crlf, 0) {
        return (i, i + 4);
    }
    let lf = chars_of("\n\n");
    if let Some(i) = find(raw, &lf, 0) {
        return (i, i + 2);
    }
    (raw.len(), raw.len())
}

/// The line is a field called `name`, where names are compared as `fold`
/// makes them.
pub open spec fn names_field(
    line: Seq<char>,
    name: Seq<char>,
    fold: spec_fn(Seq<char>) -> Seq<char>,
) -> bool {
    &&& find_char(line, ':', 0) matches Some(i)
    &&& fold(line.take(i)) == fold(name)
}

/// The first line at or behind `from` that is a field called `name`.
pub open spec fn field_line(
    rows: Seq<Seq<char>>,
    name: Seq<char>,
    fold: spec_fn(Seq<char>) -> Seq<char>,
    from: int,
) -> Option<int>
    decreases rows.len() - from,
{
    if from >= rows.len() {
        None
    } else if names_field(rows[from], name, fold) {
        Some(from)
    } else {
        field_line(rows, name, fold, from + 1)
    }
}

/// The line continues the field above it.
pub open spec fn continues(line: Seq<char>) -> bool {
    line.len() > 0 && (line[0] == ' ' || line[0] == '\t')
}

/// What the continuation lines from `k` on add to a field.
pub open spec fn folded(rows: Seq<Seq<char>>, k: int) -> Seq<char>
    decreases rows.len() - k,
{
    if k < rows.len() && continues(rows[k]) {
        seq![' '] + trim(rows[k]) + folded(rows, k + 1)
    } else {
        seq![]
    }
}

/// The value of the field on line `k`, whose name ends at `colon`: its text
/// and that of its continuation lines, each trimmed, with one space between.
pub open spec fn field_value(rows: Seq<Seq<char>>, k: int, colon: int) -> Seq<char> {
    trim(rows[k].skip(colon + 1)) + folded(rows, k + 1)
}

/// The value of the first field of a header called `name`, where names are
/// compared as `fold` makes them.
pub open spec fn field_by(
    headers: Seq<char>,
    name: Seq<char>,
    fold: spec_fn(Seq<char>) -> Seq<char>,
) -> Option<Seq<char>> {
    let rows = lines(headers);
    match field_line(rows, name, fold, 0) {
        None => None,
        Some(k) => Some(field_value(rows, k, find_char(rows[k], ':', 0)->0)),
    }
}

/// Names in lowercase.
pub open spec fn in_lowercase() -> spec_fn(Seq<char>) -> Seq<char> {
    |s: Seq<char>| lowercase(s)
}

/// Names in ASCII lowercase.
pub open spec fn in_ascii_lowercase() -> spec_fn(Seq<char>) -> Seq<char> {
    |s: Seq<char>| ascii_lowered(s)
}

/// The value of the first field called `name` of a header, whatever the case
/// of its letters.
pub open spec fn header_field(headers: Seq<char>, name: Seq<char>) -> Option<Seq<char>> {
    field_by(headers, name, in_lowercase())
}

/// Unfolds the field on line `at`, whose name ends at `colon`.
pub fn unfold(rows: &Vec<Vec<char>>, at: usize, colon: usize) -> (r: String)
    requires
        at < rows.len(),
        colon < rows[at as int].len(),
    ensures
        r@ == field_value(views(rows@), at as int, colon as int),
{
    let ghost all = views(rows@);
    let first = part(&rows[at], colon + 1, rows[at].len());
    assert(first@ =~= all[at as int].skip(colon + 1));
    let mut value = string_of(&trimmed(&first));
    let mut k: usize = at + 1;
    while k < rows.len() && rows[k].len() > 0 && (rows[k][0] == ' ' || rows[k][0] == '\t')
        invariant
            at < k <= rows.len(),
            all == views(rows@),
            field_value(all, at as int, colon as int) == value@ + folded(all, k as int),
        decreases rows.len() - k,
    {
        let ghost before = value@;
        value.push(' ');
        let cont = trimmed(&rows[k]);
        push_range(&mut value, &cont, 0, cont.len());
        assert(cont@.subrange(0, cont@.len() as int) =~= trim(all[k as int]));
        assert(continues(all[k as int]));
        assert(before + folded(all, k as int) =~= value@ + folded(all, k + 1));
        k += 1;
    }
    assert(folded(all, k as int) =~= seq![]);
    assert(value@ + folded(all, k as int) =~= value@);
    value
}

/// The value of the first field called `name`, with its continuation lines
/// unfolded. Names are compared in lowercase; where all is ASCII, that is the
/// lowercase of ASCII.
pub fn extract_header(headers: &str, name: &str) -> (r: Option<String>)
    ensures
        opt_text(r) == header_field(headers@, name@),
        is_ascii_chars(headers@) && is_ascii_chars(name@) ==> opt_text(r) == field_by(
            headers@,
            name@,
            in_ascii_lowercase(),
        ),
{
    let target = chars_of(name.to_lowercase().as_str());
    let rows = split_lines(&chars_of(headers));
    let ghost all = lines(headers@);
    let ghost plain = is_ascii_chars(headers@) && is_ascii_chars(name@);
    let mut k: usize = 0;
    while k < rows.len()
        invariant
            k <= rows.len(),
            target@ == lowercase(name@),
            plain == (is_ascii_chars(headers@) && is_ascii_chars(name@)),
            plain ==> target@ == ascii_lowered(name@),
            all == views(rows@),
            all == lines(headers@),
            field_line(all, name@, in_lowercase(), 0) == field_line(
                all,
                name@,
                in_lowercase(),
                k as int,
            ),
            plain ==> field_line(all, name@, in_ascii_lowercase(), 0) == field_line(
                all,
                name@,
                in_ascii_lowercase(),
                k as int,
            ),
        decreases rows.len() - k,
    {
        assert(all[k as int] == rows@[k as int]@);
        if let Some(i) = find_mark(&rows[k], ':', 0) {
            let field = string_of(&part(&rows[k], 0, i));
            assert(field@ =~= all[k as int].take(i as int));
            proof {
                if plain {
                    lemma_ascii_lines(headers@, 0);
                    assert(is_ascii_chars(all[k as int]));
                    assert(is_ascii_chars(field@));
                }
            }
            if same(&chars_of(field.to_lowercase().as_str()), &target) {
                return Some(unfold(&rows, k, i));
            }
        }
        k += 1;
    }
    None
}

/// The lines of an ASCII text are ASCII.
proof fn lemma_ascii_lines(s: Seq<char>, from: int)
    requires
        is_ascii_chars(s),
        0 <= from,
    ensures
        forall|k: int| 0 <= k < lines_from(s, from).len() ==> is_ascii_chars(
            #[trigger] lines_from(s, from)[k],
        ),
    decreases s.len() - from,
{
    if from < s.len() {
        lemma_find_char_bounds(s, '\n', from);
        if let Some(i) = find_char(s, '\n', from) {
            lemma_ascii_lines(s, i + 1);
            assert(is_ascii_chars(strip_return(s.subrange(from, i))));
            assert forall|k: int| 0 <= k < lines_from(s, from).len() implies is_ascii_chars(
                #[trigger] lines_from(s, from)[k],
            ) by {
                if k > 0 {
                    assert(lines_from(s, from)[k] == lines_from(s, i + 1)[k - 1]);
                }
            }
        } else {
            assert(is_ascii_chars(s.skip(from)));
        }
    }
}

/// The value of a hexadecimal digit.
pub open spec fn hex(b: u8) -> Option<u8> {
    if 48 <= b <= 57 {
        Some((b - 48) as u8)
    } else if 65 <= b <= 70 {
        Some((b - 55) as u8)
    } else if 97 <= b <= 102 {
        Some((b - 87) as u8)
    } else {
        None
    }
}

/// The value of a hexadecimal digit.
pub fn hex_value(b: u8) -> (r: Option<u8>)
    ensures
        r == hex(b),
        r matches Some(v) ==> v < 16,
{
    if 48 <= b && b <= 57 {
        Some(b - 48)
    } else if 65 <= b && b <= 70 {
        Some(b - 55)
    } else if 97 <= b && b <= 102 {
        Some(b - 87)
    } else {
        None
    }
}

/// The byte that `=XX` at `i` stands for, where two hexadecimal digits follow.
pub open spec fn escaped(b: Seq<u8>, i: int) -> Option<u8> {
    if i + 2 < b.len() {
        match (hex(b[i + 1]), hex(b[i + 2])) {
            (Some(h), Some(l)) => Some((h * 16 + l) as u8),
            _ => None,
        }
    } else {
        None
    }
}

/// The byte that `=XX` at `i` stands for.
pub fn escape_at(b: &[u8], i: usize) -> (r: Option<u8>)
    requires
        i < b.len(),
    ensures
        r == escaped(b@, i as int),
{
    if b.len() - i <= 2 {
        return None;
    }
    match (hex_value(b[i + 1]), hex_value(b[i + 2])) {
        (Some(h), Some(l)) => Some(h * 16 + l),
        _ => None,
    }
}

/// How many bytes the soft line break at `i` takes: `=` and a line feed, with
/// or without a carriage return between; none where there is no such break.
pub open spec fn soft_break(b: Seq<u8>, i: int) -> int {
    if i + 1 < b.len() && b[i + 1] == 10 {
        2
    } else if i + 2 < b.len() && b[i + 1] == 13 && b[i + 2] == 10 {
        3
    } else {
        0
    }
}

/// Quoted-printable bytes from `i` on, decoded: soft line breaks joined, `=XX`
/// escapes replaced by their byte, everything else kept.
pub open spec fn unquoted(b: Seq<u8>, i: int) -> Seq<u8>
    decreases b.len() - i,
{
    if i >= b.len() {
        seq![]
    } else if b[i] != 61 {
        seq![b[i]] + unquoted(b, i + 1)
    } else if soft_break(b, i) > 0 {
        unquoted(b, i + soft_break(b, i))
    } else {
        match escaped(b, i) {
            Some(v) => seq![v] + unquoted(b, i + 3),
            None => seq![61u8] + unquoted(b, i + 1),
        }
    }
}

/// Decodes the bytes of an RFC 2045 quoted-printable body.
pub fn unquote(b: &[u8]) -> (r: Vec<u8>)
    ensures
        r@ == unquoted(b@, 0),
{
    let mut out: Vec<u8> = Vec::new();
    let mut i: usize = 0;
    assert(out@ + unquoted(b@, 0) =~= unquoted(b@, 0));
    while i < b.len()
        invariant
            i <= b.len(),
            out@ + unquoted(b@, i as int) == unquoted(b@, 0),
        decreases b.len() - i,
    {
        let ghost before = out@;
        let ghost at = i as int;
        if b[i] != 61 {
            out.push(b[i]);
            i += 1;
        } else if b.len() - i > 1 && b[i + 1] == 10 {
            i += 2;
        } else if b.len() - i > 2 && b[i + 1] == 13 && b[i + 2] == 10 {
            i += 3;
        } else if let Some(v) = escape_at(b, i) {
            out.push(v);
            i += 3;
        } else {
            out.push(61);
            i += 1;
        }
        assert(before + unquoted(b@, at) =~= out@ + unquoted(b@, i as int));
    }
    assert(out@ + unquoted(b@, i as int) =~= out@);
    out
}

/// Decodes an RFC 2045 quoted-printable body: joins soft line breaks (`=`
/// followed by CRLF or LF) and decodes `=XX` hex escapes.
pub fn decode_quoted_printable(s: &str) -> (r: String)
    ensures
        r@ == utf8_text(unquoted(encode_utf8(s@), 0)),
        !s@.contains('=') ==> r@ == s@,
{
    proof {
        if !s@.contains('=') {
            lemma_byte_of_mark(s@);
            lemma_nothing_quoted(encode_utf8(s@), 0);
            assert(encode_utf8(s@).skip(0) =~= encode_utf8(s@));
            encode_utf8_valid_utf8(s@);
            encode_utf8_decode_utf8(s@);
        }
    }
    from_utf8_lossy(unquote(s.as_bytes()).as_slice())
}

/// The byte of `=` stands in the encoding of no other character.
proof fn lemma_byte_of_mark(s: Seq<char>)
    requires
        !s.contains('='),
    ensures
        forall|i: int| 0 <= i < encode_utf8(s).len() ==> #[trigger] encode_utf8(s)[i] != 61,
    decreases s.len(),
{
    if s.len() > 0 {
        let rest = s.drop_first();
        assert(!rest.contains('=')) by {
            if rest.contains('=') {
                let j = choose|j: int| 0 <= j < rest.len() && rest[j] == '=';
                assert(s[j + 1] == '=');
            }
        }
        lemma_byte_of_mark(rest);
        let v = s[0] as u32;
        assert(s[0] != '=') by {
            assert(s.contains(s[0]));
        }
        assert(v != 61) by {
            char_u32_cast(s[0], v);
        }
        assert(v <= 0x7f && v != 61 ==> (v & 0x7f) as u8 != 61) by (bit_vector);
        assert(0xC0 | ((v >> 6) & 0x1F) as u8 != 61) by (bit_vector);
        assert(0xE0 | ((v >> 12) & 0x0F) as u8 != 61) by (bit_vector);
        assert(0xF0 | ((v >> 18) & 0x7) as u8 != 61) by (bit_vector);
        assert(0x80 | (v & 0x3F) as u8 != 61) by (bit_vector);
        assert(0x80 | ((v >> 6) & 0x3F) as u8 != 61) by (bit_vector);
        assert(0x80 | ((v >> 12) & 0x3F) as u8 != 61) by (bit_vector);
        let first = encode_scalar(v);
        assert forall|i: int| 0 <= i < first.len() implies #[trigger] first[i] != 61 by {
            assert(i == 0 || i == 1 || i == 2 || i == 3);
        }
        assert forall|i: int| 0 <= i < encode_utf8(s).len() implies #[trigger] encode_utf8(s)[i]
            != 61 by {
            if i < first.len() {
                assert(encode_utf8(s)[i] == first[i]);
            } else {
                assert(encode_utf8(s)[i] == encode_utf8(rest)[i - first.len()]);
            }
        }
    }
}

/// Bytes without an escape are kept as they are.
proof fn lemma_nothing_quoted(b: Seq<u8>, i: int)
    requires
        0 <= i,
        forall|j: int| 0 <= j < b.len() ==> #[trigger] b[j] != 61,
    ensures
        i <= b.len() ==> unquoted(b, i) == b.skip(i),
    decreases b.len() - i,
{
    if i < b.len() {
        lemma_nothing_quoted(b, i + 1);
        assert(seq![b[i]] + b.skip(i + 1) =~= b.skip(i));
    } else if i == b.len() {
        assert(unquoted(b, i) =~= b.skip(i));
    }
}

// ---------------------------------------------------------------------------
// Laws of quoted-printable text
// ---------------------------------------------------------------------------

/// `c` is the hexadecimal digit of `v`, in upper or lower case.
pub open spec fn is_digit_of(c: char, v: int) -> bool {
    0 <= v < 16 && (c == "0123456789ABCDEF"@[v] || c == "0123456789abcdef"@[v])
}

/// `e` is a quoted-printable form of `bytes`: a character other than `=` for
/// its own bytes, `=` and two hexadecimal digits for the byte of that value,
/// and soft line breaks anywhere between.
pub open spec fn quotes(e: Seq<char>, bytes: Seq<u8>) -> bool
    decreases e.len(),
{
    if e.len() == 0 {
        bytes.len() == 0
    } else if e[0] != '=' {
        let own = encode_utf8(e.take(1));
        own.is_prefix_of(bytes) && quotes(e.skip(1), bytes.skip(own.len() as int))
    } else if e.len() > 1 && e[1] == '\n' {
        quotes(e.skip(2), bytes)
    } else if e.len() > 2 && e[1] == '\r' && e[2] == '\n' {
        quotes(e.skip(3), bytes)
    } else {
        &&& e.len() > 2
        &&& bytes.len() > 0
        &&& is_digit_of(e[1], bytes[0] as int / 16)
        &&& is_digit_of(e[2], bytes[0] as int % 16)
        &&& quotes(e.skip(3), bytes.skip(1))
    }
}

/// The bytes of a text are those of its parts.
pub proof fn lemma_encode_joined(a: Seq<char>, b: Seq<char>)
    ensures
        encode_utf8(a + b) == encode_utf8(a) + encode_utf8(b),
    decreases a.len(),
{
    if a.len() == 0 {
        assert(a + b =~= b);
        assert(encode_utf8(a) + encode_utf8(b) =~= encode_utf8(b));
    } else {
        lemma_encode_joined(a.drop_first(), b);
        assert((a + b).drop_first() =~= a.drop_first() + b);
        assert(encode_utf8(a + b) =~= encode_utf8(a) + encode_utf8(b));
    }
}

/// Behind an ASCII text of `n` characters the bytes go on with those of the
/// rest.
pub proof fn lemma_encode_ascii_head(e: Seq<char>, n: int)
    requires
        0 <= n <= e.len(),
        is_ascii_chars(e.take(n)),
    ensures
        encode_utf8(e).len() >= n,
        encode_utf8(e).skip(n) == encode_utf8(e.skip(n)),
        forall|i: int| 0 <= i < n ==> #[trigger] encode_utf8(e)[i] == e[i] as u8,
{
    let head = e.take(n);
    assert(e =~= head + e.skip(n));
    lemma_encode_joined(head, e.skip(n));
    is_ascii_chars_encode_utf8(head);
    assert(encode_utf8(e).skip(n) =~= encode_utf8(e.skip(n)));
    assert forall|i: int| 0 <= i < n implies #[trigger] encode_utf8(e)[i] == e[i] as u8 by {
        assert(encode_utf8(head)[i] == head[i] as u8);
    }
}

pub proof fn lemma_hex_of_digit(c: char, v: int)
    requires
        is_digit_of(c, v),
    ensures
        '\0' <= c <= '\u{7f}',
        hex(c as u8) == Some(v as u8),
        c != '?',
        !is_white(c),
{
    reveal_strlit("0123456789ABCDEF");
    reveal_strlit("0123456789abcdef");
}

/// What stands from `k` on decodes as it does on its own.
proof fn lemma_unquoted_from(b: Seq<u8>, k: int, i: int)
    requires
        0 <= k <= b.len(),
        0 <= i,
    ensures
        unquoted(b, k + i) == unquoted(b.skip(k), i),
    decreases b.len() - i,
{
    let rest = b.skip(k);
    if k + i < b.len() {
        lemma_unquoted_from(b, k, i + 1);
        if k + i + 2 <= b.len() {
            lemma_unquoted_from(b, k, i + 2);
        }
        if k + i + 3 <= b.len() {
            lemma_unquoted_from(b, k, i + 3);
        }
        assert(soft_break(rest, i) == soft_break(b, k + i));
        assert(escaped(rest, i) == escaped(b, k + i));
    }
}

/// Bytes without an escape are kept as they are, whatever follows.
proof fn lemma_plain_head(b: Seq<u8>, i: int, n: int)
    requires
        0 <= i <= n <= b.len(),
        forall|j: int| i <= j < n ==> #[trigger] b[j] != 61,
    ensures
        unquoted(b, i) == b.subrange(i, n) + unquoted(b, n),
    decreases n - i,
{
    if i < n {
        lemma_plain_head(b, i + 1, n);
        assert(seq![b[i]] + (b.subrange(i + 1, n) + unquoted(b, n)) =~= b.subrange(i, n)
            + unquoted(b, n));
    } else {
        assert(b.subrange(i, n) + unquoted(b, n) =~= unquoted(b, n));
    }
}

proof fn lemma_quotes(e: Seq<char>, bytes: Seq<u8>)
    requires
        quotes(e, bytes),
    ensures
        unquoted(encode_utf8(e), 0) == bytes,
    decreases e.len(),
{
    let b = encode_utf8(e);
    if e.len() == 0 {
        assert(unquoted(b, 0) =~= bytes);
    } else if e[0] != '=' {
        let head = e.take(1);
        let own = encode_utf8(head);
        let n = own.len() as int;
        lemma_quotes(e.skip(1), bytes.skip(n));
        assert(e =~= head + e.skip(1));
        lemma_encode_joined(head, e.skip(1));
        assert(!head.contains('='));
        lemma_byte_of_mark(head);
        assert forall|j: int| 0 <= j < n implies #[trigger] b[j] != 61 by {
            assert(b[j] == own[j]);
        }
        lemma_plain_head(b, 0, n);
        lemma_unquoted_from(b, n, 0);
        assert(b.skip(n) =~= encode_utf8(e.skip(1)));
        assert(b.subrange(0, n) =~= own);
        assert(own + bytes.skip(n) =~= bytes);
    } else {
        let n: int = if e.len() > 1 && e[1] == '\n' {
            2
        } else {
            3
        };
        let escape = !(e.len() > 1 && e[1] == '\n') && !(e.len() > 2 && e[1] == '\r' && e[2]
            == '\n');
        if escape {
            lemma_hex_of_digit(e[1], bytes[0] as int / 16);
            lemma_hex_of_digit(e[2], bytes[0] as int % 16);
        }
        lemma_encode_ascii_head(e, n);
        lemma_unquoted_from(b, n, 0);
        assert(b[0] == 61 && b[1] == e[1] as u8);
        if escape {
            lemma_quotes(e.skip(3), bytes.skip(1));
            assert(b[2] == e[2] as u8);
            assert(soft_break(b, 0) == 0);
            assert(escaped(b, 0) == Some(bytes[0]));
            assert(seq![bytes[0]] + bytes.skip(1) =~= bytes);
        } else {
            lemma_quotes(e.skip(n), bytes);
            if n == 3 {
                assert(b[2] == e[2] as u8);
            }
            assert(soft_break(b, 0) == n);
        }
    }
}

/// A byte as `=` and two hexadecimal digits.
pub open spec fn escape_of(byte: u8) -> Seq<char> {
    seq!['=', "0123456789ABCDEF"@[byte as int / 16], "0123456789ABCDEF"@[byte as int % 16]]
}

/// Every byte as `=` and two hexadecimal digits.
pub open spec fn escapes(bytes: Seq<u8>) -> Seq<char>
    decreases bytes.len(),
{
    if bytes.len() == 0 {
        seq![]
    } else {
        escape_of(bytes[0]) + escapes(bytes.skip(1))
    }
}

/// The digits of an escape are those of its byte.
pub proof fn lemma_escape_digits(byte: u8)
    ensures
        escape_of(byte).len() == 3,
        escape_of(byte)[0] == '=',
        is_digit_of(escape_of(byte)[1], byte as int / 16),
        is_digit_of(escape_of(byte)[2], byte as int % 16),
{
}

/// The escape of a byte before a form of the other bytes is a form of them all.
proof fn lemma_escape_quotes(bytes: Seq<u8>, rest: Seq<char>)
    requires
        bytes.len() > 0,
        quotes(rest, bytes.skip(1)),
    ensures
        quotes(escape_of(bytes[0]) + rest, bytes),
{
    let head = escape_of(bytes[0]);
    let e = head + rest;
    lemma_escape_digits(bytes[0]);
    assert(e[0] == head[0] && e[1] == head[1] && e[2] == head[2]);
    lemma_hex_of_digit(e[1], bytes[0] as int / 16);
    assert(e.skip(3) =~= rest);
}

proof fn lemma_escapes_quote(bytes: Seq<u8>)
    ensures
        quotes(escapes(bytes), bytes),
    decreases bytes.len(),
{
    if bytes.len() > 0 {
        let rest = escapes(bytes.skip(1));
        lemma_escapes_quote(bytes.skip(1));
        lemma_escape_quotes(bytes, rest);
    }
}

proof fn lemma_plain_quotes(plain: Seq<char>, e: Seq<char>, bytes: Seq<u8>)
    requires
        !plain.contains('='),
        quotes(e, bytes),
    ensures
        quotes(plain + e, encode_utf8(plain) + bytes),
    decreases plain.len(),
{
    if plain.len() == 0 {
        assert(plain + e =~= e);
        assert(encode_utf8(plain) + bytes =~= bytes);
    } else {
        let all = plain + e;
        let rest = plain.skip(1);
        assert(!rest.contains('=')) by {
            if rest.contains('=') {
                let j = choose|j: int| 0 <= j < rest.len() && rest[j] == '=';
                assert(plain[j + 1] == '=');
            }
        }
        lemma_plain_quotes(rest, e, bytes);
        assert(plain.contains(plain[0]));
        assert(all.take(1) =~= plain.take(1));
        assert(all.skip(1) =~= rest + e);
        assert(plain =~= plain.take(1) + rest);
        lemma_encode_joined(plain.take(1), rest);
        let own = encode_utf8(plain.take(1));
        assert((encode_utf8(plain) + bytes).skip(own.len() as int) =~= encode_utf8(rest) + bytes);
        assert(own.is_prefix_of(encode_utf8(plain) + bytes));
    }
}

/// A text in any quoted-printable form reads back, on its own and behind a
/// plain text without `=`.
pub proof fn law_quoted_text_reads_back(plain: Seq<char>, e: Seq<char>, text: Seq<char>)
    requires
        !plain.contains('='),
        quotes(e, encode_utf8(text)),
    ensures
        utf8_text(unquoted(encode_utf8(e), 0)) == text,
        utf8_text(unquoted(encode_utf8(plain + e), 0)) == plain + text,
{
    lemma_quotes(e, encode_utf8(text));
    encode_utf8_valid_utf8(text);
    encode_utf8_decode_utf8(text);
    lemma_plain_quotes(plain, e, encode_utf8(text));
    lemma_encode_joined(plain, text);
    lemma_quotes(plain + e, encode_utf8(plain + text));
    encode_utf8_valid_utf8(plain + text);
    encode_utf8_decode_utf8(plain + text);
}

/// A text with every byte escaped reads back, on its own and behind a plain
/// text without `=`.
pub proof fn law_escaped_text_reads_back(plain: Seq<char>, text: Seq<char>)
    requires
        !plain.contains('='),
    ensures
        utf8_text(unquoted(encode_utf8(escapes(encode_utf8(text))), 0)) == text,
        utf8_text(unquoted(encode_utf8(plain + escapes(encode_utf8(text))), 0)) == plain + text,
{
    lemma_escapes_quote(encode_utf8(text));
    law_quoted_text_reads_back(plain, escapes(encode_utf8(text)), text);
}

/// The ASCII lowercase form of a text.
pub open spec fn ascii_lowered(s: Seq<char>) -> Seq<char> {
    s.map_values(|c: char| ascii_lower(c))
}

/// The ASCII lowercase form of a text.
pub fn to_ascii_lower(s: &Vec<char>) -> (r: Vec<char>)
    ensures
        r@ == ascii_lowered(s@),
{
    let mut out: Vec<char> = Vec::new();
    let mut i: usize = 0;
    while i < s.len()
        invariant
            i <= s.len(),
            out@ == ascii_lowered(s@).take(i as int),
        decreases s.len() - i,
    {
        let c = s[i];
        if 'A' <= c && c <= 'Z' {
            out.push((c as u8 + 32) as char);
        } else {
            out.push(c);
        }
        i += 1;
        assert(out@ =~= ascii_lowered(s@).take(i as int));
    }
    assert(out@ =~= ascii_lowered(s@));
    out
}

/// The body of a mail is quoted-printable, as its header says.
pub open spec fn is_quoted(headers: Seq<char>) -> bool {
    &&& header_field(headers, "Content-Transfer-Encoding"@) matches Some(v)
    &&& trim(ascii_lowered(v)) == "quoted-printable"@
}

/// The line that shows the field `name`, where the header has it.
pub open spec fn field_row(headers: Seq<char>, name: Seq<char>) -> Seq<char> {
    match header_field(headers, name) {
        Some(v) => name + ": "@ + mime_decoded(v) + seq!['\n'],
        None => seq![],
    }
}

/// A raw mail as it is read: six fields of its header, a rule, and its body.
pub open spec fn raw_mail_text(raw: Seq<char>) -> Seq<char> {
    let h = header_block(raw);
    field_row(h, "From"@) + field_row(h, "Date"@) + field_row(h, "Subject"@) + field_row(h, "To"@)
        + field_row(h, "Cc"@) + field_row(h, "Message-ID"@) + "\n--\n\n"@ + if is_quoted(h) {
        utf8_text(unquoted(encode_utf8(mail_body(raw)), 0))
    } else {
        mail_body(raw)
    }
}

/// Writes the line that shows the field `name` behind `out`.
fn push_field(out: &mut String, headers: &str, name: &str)
    ensures
        final(out)@ == old(out)@ + field_row(headers@, name@),
{
    if let Some(v) = extract_header(headers, name) {
        out.append(name);
        out.append(": ");
        out.append(decode_mime_header(v.as_str()).as_str());
        out.push('\n');
    }
    assert(out@ =~= old(out)@ + field_row(headers@, name@));
}

/// Lays out a raw mail for reading.
pub fn format_raw_mail(raw: &str) -> (r: String)
    ensures
        r@ == raw_mail_text(raw@),
{
    let all = chars_of(raw);
    let (end, start) = split_header(&all);
    let headers = string_of(&part(&all, 0, end));
    let body = string_of(&part(&all, start, all.len()));
    assert(headers@ =~= header_block(raw@));
    assert(body@ =~= mail_body(raw@));

    let mut out = String::new();
    push_field(&mut out, headers.as_str(), "From");
    push_field(&mut out, headers.as_str(), "Date");
    push_field(&mut out, headers.as_str(), "Subject");
    push_field(&mut out, headers.as_str(), "To");
    push_field(&mut out, headers.as_str(), "Cc");
    push_field(&mut out, headers.as_str(), "Message-ID");
    out.append("\n--\n\n");

    let quoted = match extract_header(headers.as_str(), "Content-Transfer-Encoding") {
        Some(v) => same(
            &trimmed(&to_ascii_lower(&chars_of(v.as_str()))),
            &chars_of("quoted-printable"),
        ),
        None => false,
    };
    if quoted {
        out.append(decode_quoted_printable(body.as_str()).as_str());
    } else {
        out.append(body.as_str());
    }
    assert(out@ =~= raw_mail_text(raw@));
    out
}

/// A header field is found whatever the case of the letters of its name.
pub proof fn law_field_names_ignore_case(headers: Seq<char>, a: Seq<char>, b: Seq<char>)
    requires
        lowercase(a) == lowercase(b),
    ensures
        header_field(headers, a) == header_field(headers, b),
{
    lemma_same_field(lines(headers), a, b, 0);
}

proof fn lemma_same_field(rows: Seq<Seq<char>>, a: Seq<char>, b: Seq<char>, from: int)
    requires
        lowercase(a) == lowercase(b),
    ensures
        field_line(rows, a, in_lowercase(), from) == field_line(rows, b, in_lowercase(), from),
    decreases rows.len() - from,
{
    if from < rows.len() {
        lemma_same_field(rows, a, b, from + 1);
    }
}

/// A mail splits into its header and its body: nothing is lost but the empty
/// line between them, and neither holds what the other does.
pub proof fn law_header_and_body_are_the_mail(raw: Seq<char>)
    ensures
        ({
            let (end, start) = header_split(raw);
            &&& 0 <= end <= start <= raw.len()
            &&& raw == header_block(raw) + raw.subrange(end, start) + mail_body(raw)
            &&& end < start ==> raw.subrange(end, start) == "\r\n\r\n"@ || raw.subrange(end, start)
                == "\n\n"@
            &&& end == start ==> mail_body(raw).len() == 0
        }),
{
    reveal_strlit("\r\n\r\n");
    reveal_strlit("\n\n");
    lemma_find_text(raw, "\r\n\r\n"@, 0);
    lemma_find_text(raw, "\n\n"@, 0);
    let (end, start) = header_split(raw);
    assert(raw =~= header_block(raw) + raw.subrange(end, start) + mail_body(raw));
}

// ---------------------------------------------------------------------------
// Ranges of time as the user writes them
// ---------------------------------------------------------------------------

/// What the local clock shows: a date and a time of day.
#[derive(Clone, Copy, Debug, PartialEq, Eq, Structural)]
pub struct WallTime {
    pub year: u32,
    pub month: u32,
    pub day: u32,
    pub hour: u32,
    pub minute: u32,
}

impl WallTime {
    /// The numbers are a date and a time of day.
    pub open spec fn is_possible(self) -> bool {
        is_clock_time(self.year as i32, self.month, self.day, self.hour, self.minute)
    }
}

/// A range of time as it is written.
#[derive(Clone, Copy, Debug, PartialEq, Eq, Structural)]
pub enum RangeSpec {
    Today,
    Yesterday,
    Between(WallTime, WallTime),
}

/// Why a range of time was refused.
#[derive(Clone, Copy, Debug, PartialEq, Eq, Structural)]
pub enum DateError {
    /// It is not written as a range of time.
    Malformed,
    /// The local clock never shows one of its ends.
    NoSuchTime,
}

impl DateError {
    /// The reason in words.
    pub open spec fn reason(self) -> Seq<char> {
        match self {
            DateError::Malformed => "expected today, yesterday or YYYY/MM/DD HH:MM to YYYY/MM/DD HH:MM"@,
            DateError::NoSuchTime => "no such local time"@,
        }
    }

    /// The reason in words.
    pub fn message(&self) -> (r: &'static str)
        ensures
            r@ == self.reason(),
    {
        match self {
            DateError::Malformed => "expected today, yesterday or YYYY/MM/DD HH:MM to YYYY/MM/DD HH:MM",
            DateError::NoSuchTime => "no such local time",
        }
    }
}

/// The date and time of day that `YYYY/MM/DD HH:MM` writes.
pub open spec fn wall_time(s: Seq<char>) -> Option<WallTime> {
    if s.len() == 16 && s[4] == '/' && s[7] == '/' && s[10] == ' ' && s[13] == ':' && all_digits(
        s.subrange(0, 4),
    ) && all_digits(s.subrange(5, 7)) && all_digits(s.subrange(8, 10)) && all_digits(
        s.subrange(11, 13),
    ) && all_digits(s.subrange(14, 16)) {
        Some(
            WallTime {
                year: digits_value(s.subrange(0, 4)) as u32,
                month: digits_value(s.subrange(5, 7)) as u32,
                day: digits_value(s.subrange(8, 10)) as u32,
                hour: digits_value(s.subrange(11, 13)) as u32,
                minute: digits_value(s.subrange(14, 16)) as u32,
            },
        )
    } else {
        None
    }
}

/// The range of time that a text writes: `today`, `yesterday`, or
/// `YYYY/MM/DD HH:MM to YYYY/MM/DD HH:MM`.
pub open spec fn range_spec(s: Seq<char>) -> Option<RangeSpec> {
    if s == "today"@ {
        Some(RangeSpec::Today)
    } else if s == "yesterday"@ {
        Some(RangeSpec::Yesterday)
    } else {
        match find_text(s, " to "@, 0) {
            None => None,
            Some(i) => match (wall_time(s.take(i)), wall_time(s.skip(i + 4))) {
                (Some(a), Some(b)) => Some(RangeSpec::Between(a, b)),
                _ => None,
            },
        }
    }
}

/// Up to four digits write a number below ten thousand.
proof fn lemma_few_digits(s: Seq<char>)
    requires
        all_digits(s),
        s.len() <= 4,
    ensures
        digits_value(s) < 10000,
{
    reveal_with_fuel(digits_value, 5);
    assert forall|i: int| 0 <= i < s.len() implies 48 <= #[trigger] s[i] as nat <= 57 by {
        assert(is_digit(s[i]));
    }
}

/// Reads the digits `lo..hi` of `s`.
fn read_field(s: &Vec<char>, lo: usize, hi: usize) -> (r: Option<u32>)
    requires
        lo <= hi <= s.len(),
        hi - lo <= 4,
    ensures
        match r {
            Some(n) => all_digits(s@.subrange(lo as int, hi as int)) && n == digits_value(
                s@.subrange(lo as int, hi as int),
            ),
            None => !all_digits(s@.subrange(lo as int, hi as int)),
        },
{
    if !are_digits(s, lo, hi) {
        return None;
    }
    proof {
        lemma_few_digits(s@.subrange(lo as int, hi as int));
    }
    read_number(s, lo, hi)
}

/// Reads a date and a time of day.
pub fn read_wall_time(s: &Vec<char>) -> (r: Option<WallTime>)
    ensures
        r == wall_time(s@),
{
    if s.len() != 16 || s[4] != '/' || s[7] != '/' || s[10] != ' ' || s[13] != ':' {
        return None;
    }
    match (
        read_field(s, 0, 4),
        read_field(s, 5, 7),
        read_field(s, 8, 10),
        read_field(s, 11, 13),
        read_field(s, 14, 16),
    ) {
        (Some(year), Some(month), Some(day), Some(hour), Some(minute)) => Some(
            WallTime { year, month, day, hour, minute },
        ),
        _ => None,
    }
}

/// Reads a range of time.
pub fn read_range(s: &Vec<char>) -> (r: Option<RangeSpec>)
    ensures
        r == range_spec(s@),
        r matches Some(RangeSpec::Between(a, b)) ==> a.year < 10000 && b.year < 10000,
{
    if same(s, &chars_of("today")) {
        return Some(RangeSpec::Today);
    }
    if same(s, &chars_of("yesterday")) {
        return Some(RangeSpec::Yesterday);
    }
    proof {
        reveal_strlit(" to ");
    }
    match find(s, &chars_of(" to "), 0) {
        None => None,
        Some(i) => {
            let left = part(s, 0, i);
            let right = part(s, i + 4, s.len());
            assert(left@ =~= s@.take(i as int));
            assert(right@ =~= s@.skip(i + 4));
            match (read_wall_time(&left), read_wall_time(&right)) {
                (Some(a), Some(b)) => {
                    proof {
                        lemma_few_digits(left@.subrange(0, 4));
                        lemma_few_digits(right@.subrange(0, 4));
                    }
                    Some(RangeSpec::Between(a, b))
                },
                _ => None,
            }
        },
    }
}

/// The first day of a range of whole days and the day behind its last: today,
/// or the day before.
pub open spec fn day_bounds(today: (i32, u32, u32), back: bool) -> Option<
    ((i32, u32, u32), (i32, u32, u32)),
> {
    if back {
        match day_before(today.0, today.1, today.2) {
            Some(d) => Some((d, today)),
            None => None,
        }
    } else {
        match day_after(today.0, today.1, today.2) {
            Some(d) => Some((today, d)),
            None => None,
        }
    }
}

/// The bounds of today, or of the day before.
pub fn bounds_of_day(today: (i32, u32, u32), back: bool) -> (r: Option<
    ((i32, u32, u32), (i32, u32, u32)),
>)
    ensures
        r == day_bounds(today, back),
{
    if back {
        match previous_day(today.0, today.1, today.2) {
            Some(d) => Some((d, today)),
            None => None,
        }
    } else {
        match next_day(today.0, today.1, today.2) {
            Some(d) => Some((today, d)),
            None => None,
        }
    }
}

/// The range between two points in time, where there are both.
pub open spec fn range_between(start: Option<(i64, u32)>, end: Option<(i64, u32)>) -> Result<
    DateRange,
    DateError,
> {
    match (start, end) {
        (Some(a), Some(b)) => Ok(
            DateRange {
                start: Moment { secs: a.0, nanos: a.1 },
                end: Moment { secs: b.0, nanos: b.1 },
            },
        ),
        _ => Err(DateError::NoSuchTime),
    }
}

/// The range between two points in time, where there are both.
pub fn range_of(start: Option<(i64, u32)>, end: Option<(i64, u32)>) -> (r: Result<
    DateRange,
    DateError,
>)
    ensures
        r == range_between(start, end),
{
    match (start, end) {
        (Some(a), Some(b)) => Ok(
            DateRange {
                start: Moment { secs: a.0, nanos: a.1 },
                end: Moment { secs: b.0, nanos: b.1 },
            },
        ),
        _ => Err(DateError::NoSuchTime),
    }
}

/// A date and a time of day on the local clock: year, month, day, hour and
/// minute.
pub open spec fn clock_time(day: (i32, u32, u32), hour: u32, minute: u32) -> (
    i32,
    u32,
    u32,
    u32,
    u32,
) {
    (day.0, day.1, day.2, hour, minute)
}

/// What the local clock shows at the two ends of a range, where today is
/// `today`: the days of the calendar begin at midnight.
pub open spec fn clock_ends(range: RangeSpec, today: (i32, u32, u32)) -> Option<
    ((i32, u32, u32, u32, u32), (i32, u32, u32, u32, u32)),
> {
    match range {
        RangeSpec::Between(a, b) => Some(
            (
                clock_time((a.year as i32, a.month, a.day), a.hour, a.minute),
                clock_time((b.year as i32, b.month, b.day), b.hour, b.minute),
            ),
        ),
        RangeSpec::Today | RangeSpec::Yesterday => match day_bounds(
            today,
            range == RangeSpec::Yesterday,
        ) {
            Some((first, behind)) => Some((clock_time(first, 0, 0), clock_time(behind, 0, 0))),
            None => None,
        },
    }
}

/// What the local clock shows at the two ends of a range, where today is
/// `today`.
pub fn ends_of(range: RangeSpec, today: (i32, u32, u32)) -> (r: Option<
    ((i32, u32, u32, u32, u32), (i32, u32, u32, u32, u32)),
>)
    requires
        range matches RangeSpec::Between(a, b) ==> a.year < 10000 && b.year < 10000,
    ensures
        r == clock_ends(range, today),
{
    let back = match range {
        RangeSpec::Between(a, b) => {
            return Some(
                (
                    (a.year as i32, a.month, a.day, a.hour, a.minute),
                    (b.year as i32, b.month, b.day, b.hour, b.minute),
                ),
            );
        },
        RangeSpec::Today => false,
        RangeSpec::Yesterday => true,
    };
    match bounds_of_day(today, back) {
        Some((first, behind)) => Some(
            ((first.0, first.1, first.2, 0, 0), (behind.0, behind.1, behind.2, 0, 0)),
        ),
        None => None,
    }
}

/// The ends of a range are dates and times of day.
pub open spec fn is_possible(range: RangeSpec) -> bool {
    match range {
        RangeSpec::Between(a, b) => a.is_possible() && b.is_possible(),
        _ => true,
    }
}

/// The points in time at which some clock shows the ends of `range` are those
/// of `read`, where today is `today`.
pub open spec fn stands_for(range: RangeSpec, today: (i32, u32, u32), read: DateRange) -> bool {
    &&& clock_ends(range, today) matches Some((a, b))
    &&& some_clock_shows((read.start.secs, read.start.nanos), a)
    &&& some_clock_shows((read.end.secs, read.end.nanos), b)
}

/// `read` is the range of time that a text writes, on some date and on a clock
/// that is less than a day off UTC.
pub open spec fn reads_as(text: Seq<char>, read: DateRange) -> bool {
    &&& range_spec(text) matches Some(range)
    &&& exists|today: (i32, u32, u32)|
        is_date(today.0, today.1, today.2) && #[trigger] stands_for(range, today, read)
}

/// The points in time of a range that is written, where today is `today`. They
/// are those at which the local clock shows its ends; how far that clock is
/// off UTC is up to the time zone of the machine.
pub fn range_on(range: RangeSpec, today: (i32, u32, u32)) -> (r: Result<DateRange, DateError>)
    requires
        range matches RangeSpec::Between(a, b) ==> a.year < 10000 && b.year < 10000,
    ensures
        !is_possible(range) ==> r == Err::<DateRange, DateError>(DateError::NoSuchTime),
        clock_ends(range, today) is None ==> r == Err::<DateRange, DateError>(
            DateError::NoSuchTime,
        ),
        match r {
            Ok(read) => stands_for(range, today, read),
            Err(e) => e == DateError::NoSuchTime,
        },
{
    match ends_of(range, today) {
        Some((a, b)) => range_of(
            local_moment(a.0, a.1, a.2, a.3, a.4),
            local_moment(b.0, b.1, b.2, b.3, b.4),
        ),
        None => Err(DateError::NoSuchTime),
    }
}

/// The range of time that a text writes. What is written is exact; which
/// points in time it stands for is up to the date and the time zone of the
/// machine, within the day that a clock can be off UTC.
pub fn parse_date_range(text: &str) -> (r: Result<DateRange, DateError>)
    ensures
        range_spec(text@) is None <==> r == Err::<DateRange, DateError>(DateError::Malformed),
        range_spec(text@) matches Some(range) ==> !is_possible(range) ==> r == Err::<
            DateRange,
            DateError,
        >(DateError::NoSuchTime),
        r matches Ok(read) ==> reads_as(text@, read),
{
    let range = match read_range(&chars_of(text)) {
        Some(range) => range,
        None => return Err(DateError::Malformed),
    };
    range_on(range, local_today())
}

} // verus!
