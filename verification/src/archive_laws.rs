//! Where mirrors are kept, which epochs the catalog has, and what git's answers
//! and a raw mail are read as.

use vstd::prelude::*;

use crate::archive::{
    digits_end, epoch_prefix, epoch_url, filled, git_reply, joined, lemma_digits_end, lists_epoch,
    listed_as, manifest_of, mime_decoded, mirror_name, mirror_path, mirror_root, number_at, places,
    rfc_date, ManifestError,
};
use crate::mail::Mail;
use crate::mail_laws::law_a_sender_is_shown_by_name;
use crate::outside::{gunzip_text, rfc2822_stamp, rfc3339_stamp, utf8_text};
use crate::parse::{header_block, header_field};
use crate::text::{
    decimal, digits_value, find_text, is_digit, is_white, law_decimal_reads_back, lemma_find_text,
    lemma_find_text_bounds, lines, occurs_at, repeated,
};
use crate::text_laws::{law_lines_are_the_rows, written_rows};

verus! {

// ---------------------------------------------------------------------------
// Paths
// ---------------------------------------------------------------------------

/// A path that starts at the root stands for itself, wherever it is seen from;
/// and going down in two steps leads where going down in one does.
pub proof fn law_paths_are_joined_step_by_step(a: Seq<char>, b: Seq<char>, c: Seq<char>)
    requires
        b.len() > 0,
    ensures
        b[0] == '/' ==> joined(a, b) == b,
        joined(joined(a, b), c) == joined(a, joined(b, c)),
{
    assert(joined(joined(a, b), c) =~= joined(a, joined(b, c)));
}

/// The mirror of an epoch is kept in the user's cache directory, below the
/// name of the reader, `archives` and the name of the list, in a directory that
/// is called after the number of the epoch. The home directory plays a part
/// only where no cache directory is set.
pub proof fn law_mirrors_live_in_the_cache(
    cache: Seq<char>,
    home: Option<Seq<char>>,
    list: Seq<char>,
    epoch: u32,
)
    requires
        cache.len() > 0 && cache.last() != '/',
        list.len() > 0 && list[0] != '/',
    ensures
        mirror_path(mirror_root(Some(cache), home), list, epoch) == cache
            + "/lkml-reader/archives/"@ + list + "/"@ + mirror_name(epoch),
        mirror_root(None, Some(cache)) == mirror_root(Some(cache + "/.cache"@), None),
        mirror_root(None, None) == mirror_root(Some("/tmp"@), Some(cache)),
{
    reveal_strlit("/lkml-reader/archives/");
    reveal_strlit("lkml-reader/archives");
    reveal_strlit("/");
    let root = mirror_root(Some(cache), home);
    assert(root =~= cache + seq!['/'] + "lkml-reader/archives"@);
    assert(root.last() == 's');
    let rel = list + "/"@ + decimal(epoch as nat) + ".git"@;
    assert(rel[0] == list[0]);
    assert("/lkml-reader/archives/"@ =~= seq!['/'] + "lkml-reader/archives"@ + seq!['/']);
    assert(mirror_path(root, list, epoch) =~= cache + "/lkml-reader/archives/"@ + list + "/"@
        + mirror_name(epoch));
}

/// The address of an epoch is that of the list on the server, and below it the
/// name that the mirror has too.
pub proof fn law_addresses_name_list_and_epoch(list: Seq<char>, epoch: u32)
    ensures
        epoch_url(list, epoch) == "https://lore.kernel.org/"@ + list + "/git/"@ + mirror_name(
            epoch,
        ),
        mirror_name(epoch) == decimal(epoch as nat) + seq!['.', 'g', 'i', 't'],
{
    reveal_strlit(".git");
    assert(".git"@ =~= seq!['.', 'g', 'i', 't']);
    reveal_strlit("https://lore.kernel.org");
    reveal_strlit("https://lore.kernel.org/");
    reveal_strlit("/");
    assert("https://lore.kernel.org/"@ =~= "https://lore.kernel.org"@ + "/"@);
    assert(epoch_url(list, epoch) =~= "https://lore.kernel.org/"@ + list + "/git/"@ + mirror_name(
        epoch,
    ));
}

// ---------------------------------------------------------------------------
// The catalog
// ---------------------------------------------------------------------------

/// Only an answer of the server that tells of success, a status in the two
/// hundreds, is unpacked.
pub proof fn law_only_success_is_unpacked(status: u16, body: Seq<u8>)
    ensures
        status / 100 != 2 ==> manifest_of(status, body) == Err::<Seq<char>, ManifestError>(
            ManifestError::Status(status),
        ),
        status / 100 == 2 ==> manifest_of(status, body) == match gunzip_text(body) {
            Some(text) => Ok::<Seq<char>, ManifestError>(text),
            None => Err(ManifestError::Unpacking),
        },
{
}

/// Two places of a text that starts with `c` and has none further on do not
/// overlap.
proof fn lemma_no_overlap(s: Seq<char>, prefix: Seq<char>, i: int, j: int)
    requires
        prefix.len() > 0,
        forall|k: int| 0 < k < prefix.len() ==> #[trigger] prefix[k] != prefix[0],
        occurs_at(s, prefix, i),
        occurs_at(s, prefix, j),
        i < j,
    ensures
        i + prefix.len() <= j,
{
    if j < i + prefix.len() {
        let k = j - i;
        assert(s.subrange(i, i + prefix.len())[k] == s[j]);
        assert(s.subrange(j, j + prefix.len())[0] == s[j]);
        assert(prefix[k] == prefix[0]);
    }
}

proof fn lemma_places(s: Seq<char>, prefix: Seq<char>, from: int, i: int)
    requires
        prefix.len() > 0,
        forall|k: int| 0 < k < prefix.len() ==> #[trigger] prefix[k] != prefix[0],
        0 <= from,
    ensures
        from <= i && occurs_at(s, prefix, i) ==> places(s, prefix, from).contains(i),
        places(s, prefix, from).contains(i) ==> from <= i && occurs_at(s, prefix, i),
    decreases s.len() - from,
{
    lemma_find_text(s, prefix, from);
    lemma_find_text_bounds(s, prefix, from);
    let all = places(s, prefix, from);
    match find_text(s, prefix, from) {
        None => {},
        Some(f) => {
            let rest = places(s, prefix, f + prefix.len());
            assert(all == seq![f] + rest);
            assert(all[0] == f);
            lemma_places(s, prefix, f + prefix.len(), i);
            if from <= i && occurs_at(s, prefix, i) && i != f {
                if i > f {
                    lemma_no_overlap(s, prefix, f, i);
                }
                let k = choose|k: int| 0 <= k < rest.len() && rest[k] == i;
                assert(all[k + 1] == i);
            }
            if all.contains(i) {
                let k = choose|k: int| 0 <= k < all.len() && all[k] == i;
                if k > 0 {
                    assert(rest[k - 1] == i);
                    assert(rest.contains(i));
                }
            }
        },
    }
}

/// What stands in the catalog before the number of an epoch of a list.
pub open spec fn listing_head(list: Seq<char>) -> Seq<char> {
    seq!['"', '/'] + list + seq!['/', 'g', 'i', 't', '/']
}

/// The catalog has an epoch of a list wherever its path stands in it, in
/// quotes: the name of the list, `git` and the number of the epoch. Nothing
/// else puts an epoch into it.
pub proof fn law_the_catalog_lists_what_stands_in_it(
    json: Seq<char>,
    list: Seq<char>,
    n: u32,
    before: Seq<char>,
    after: Seq<char>,
)
    requires
        !list.contains('"'),
    ensures
        after.len() > 0 && !is_digit(after[0]) && json == before + listing_head(list) + decimal(
            n as nat,
        ) + after ==> lists_epoch(json, list, n),
        lists_epoch(json, list, n) ==> exists|i: int|
            #![trigger occurs_at(json, listing_head(list), i)]
            occurs_at(json, listing_head(list), i) && ({
                let at = i + listing_head(list).len();
                let end = digits_end(json, at);
                at < end && digits_value(json.subrange(at, end)) == n
            }),
{
    reveal_strlit("\"/");
    reveal_strlit("/git/");
    let prefix = epoch_prefix(list);
    assert("\"/"@ =~= seq!['"', '/']);
    assert("/git/"@ =~= seq!['/', 'g', 'i', 't', '/']);
    assert(prefix =~= listing_head(list));
    assert forall|k: int| 0 < k < prefix.len() implies #[trigger] prefix[k] != prefix[0] by {
        if 2 <= k < 2 + list.len() {
            assert(prefix[k] == list[k - 2]);
            assert(list.contains(list[k - 2]));
        }
    }
    let all = places(json, prefix, 0);
    let digits = decimal(n as nat);
    if after.len() > 0 && !is_digit(after[0]) && json == before + listing_head(list) + digits
        + after {
        let i = before.len() as int;
        let at = i + prefix.len();
        let end = at + digits.len();
        assert(json.subrange(i, at as int) =~= prefix);
        assert(occurs_at(json, prefix, i));
        lemma_places(json, prefix, 0, i);
        law_decimal_reads_back(n as nat);
        assert forall|k: int| at <= k < end implies is_digit(#[trigger] json[k]) by {
            assert(json[k] == digits[k - at]);
        }
        assert(json[end as int] == after[0]);
        lemma_digits_end(json, at as int, end as int);
        assert(json.subrange(at as int, end as int) =~= digits);
        lemma_some_digit(n as nat);
        assert(number_at(json, at as int) == Some(n));
        let k = choose|k: int| 0 <= k < all.len() && all[k] == i;
        assert(number_at(json, all[k] + prefix.len()) == Some(n));
    }
    if lists_epoch(json, list, n) {
        let k = choose|k: int|
            0 <= k < all.len() && number_at(json, #[trigger] all[k] + prefix.len()) == Some(n);
        assert(all.contains(all[k]));
        lemma_places(json, prefix, 0, all[k]);
        assert(occurs_at(json, listing_head(list), all[k]));
    }
}

proof fn lemma_some_digit(n: nat)
    ensures
        decimal(n).len() > 0,
{
}

// ---------------------------------------------------------------------------
// Git's answers
// ---------------------------------------------------------------------------

/// The answer to a command that worked is what git wrote out, and what it wrote
/// beside it plays no part; the answer to one that failed names the command and
/// what git wrote about it, and nothing that it wrote out.
pub proof fn law_git_is_taken_at_its_word(
    command: Seq<char>,
    out: Seq<u8>,
    err: Seq<u8>,
    other: Seq<u8>,
)
    ensures
        git_reply(command, true, out, err) == git_reply(command, true, out, other),
        git_reply(command, false, out, err) == git_reply(command, false, other, err),
        git_reply(command, true, out, err) == Ok::<Seq<char>, Seq<char>>(utf8_text(out)),
        git_reply(command, false, out, err) matches Err(e) && e.subrange(
            0,
            command.len() as int,
        ) == command && e.skip(e.len() - utf8_text(err).len()) == utf8_text(err),
{
    let e = command + " failed: "@ + utf8_text(err);
    assert(e.subrange(0, command.len() as int) =~= command);
    assert(e.skip(e.len() - utf8_text(err).len()) =~= utf8_text(err));
}

/// The commits that git lists, one a line, are read as they stand, newest
/// first, whether or not the last line is ended; empty lines are none.
pub proof fn law_listed_commits_are_read(rows: Seq<Seq<char>>, last: Seq<char>)
    requires
        forall|i: int|
            0 <= i < rows.len() ==> !(#[trigger] rows[i]).contains('\n') && !rows[i].contains(
                '\r',
            ),
        !last.contains('\n'),
    ensures
        filled(lines(written_rows(rows, Seq::new(rows.len(), |i: int| false)) + last)) == filled(
            rows,
        ) + (if last.len() > 0 {
            seq![last]
        } else {
            seq![]
        }),
        (forall|i: int| 0 <= i < rows.len() ==> (#[trigger] rows[i]).len() > 0) ==> filled(rows)
            == rows,
{
    let crs = Seq::new(rows.len(), |i: int| false);
    assert forall|i: int|
        0 <= i < rows.len() && !crs[i] && rows[i].len() > 0 implies (#[trigger] rows[i]).last()
        != '\r' by {
        assert(rows[i].contains(rows[i][rows[i].len() - 1]));
    }
    law_lines_are_the_rows(rows, crs, last);
    let p = |row: Seq<char>| row.len() > 0;
    reveal(Seq::filter);
    if last.len() > 0 {
        assert(rows.push(last).drop_last() =~= rows);
        assert(filled(rows.push(last)) =~= filled(rows).push(last));
    } else {
        assert(filled(rows) + Seq::<Seq<char>>::empty() =~= filled(rows));
    }
    if forall|i: int| 0 <= i < rows.len() ==> (#[trigger] rows[i]).len() > 0 {
        lemma_all_filled(rows);
    }
}

proof fn lemma_all_filled(rows: Seq<Seq<char>>)
    requires
        forall|i: int| 0 <= i < rows.len() ==> (#[trigger] rows[i]).len() > 0,
    ensures
        filled(rows) == rows,
    decreases rows.len(),
{
    reveal(Seq::filter);
    if rows.len() > 0 {
        let init = rows.drop_last();
        assert forall|i: int| 0 <= i < init.len() implies (#[trigger] init[i]).len() > 0 by {
            assert(init[i] == rows[i]);
        }
        lemma_all_filled(init);
        assert(rows[rows.len() - 1].len() > 0);
        assert(init.push(rows.last()) =~= rows);
    }
}

// ---------------------------------------------------------------------------
// What the lists know of a mail
// ---------------------------------------------------------------------------

/// A date is read as RFC 2822 has it where that reads anything, and else as
/// RFC 3339 does; the point in time and the offset are those that were read.
pub proof fn law_dates_are_kept_as_they_were_read(s: Seq<char>)
    requires
        s.len() > 0,
    ensures
        rfc2822_stamp(s) matches Some((secs, nanos, offset)) ==> (rfc_date(s) matches Some(d)
            && d.moment.secs == secs && d.moment.nanos == nanos && d.offset == offset),
        rfc2822_stamp(s) is None ==> (rfc3339_stamp(s) matches Some((secs, nanos, offset)) ==> (
        rfc_date(s) matches Some(d) && d.moment.secs == secs && d.moment.nanos == nanos && d.offset
            == offset)),
        rfc2822_stamp(s) is None && rfc3339_stamp(s) is None ==> rfc_date(s) is None,
{
}

/// The lists show a mail under its decoded subject and by the name of its
/// sender, with the date of its header; a mail without one of these fields has
/// an empty subject, an empty author, or no date.
pub proof fn law_lists_show_subject_sender_and_date(
    raw: Seq<char>,
    mail: Mail,
    name: Seq<char>,
    address: Seq<char>,
)
    requires
        listed_as(raw, mail),
        name.len() > 0 && !name.contains('<'),
        name[0] != '"' && name.last() != '"',
        !is_white(name[0]) && !is_white(name.last()),
    ensures
        header_field(header_block(raw), "Subject"@) matches Some(v) ==> mail.title@
            == mime_decoded(v),
        header_field(header_block(raw), "Subject"@) is None ==> mail.title@.len() == 0,
        header_field(header_block(raw), "From"@) matches Some(v) ==> mime_decoded(v) == name + seq![
            ' ',
            '<',
        ] + address + seq!['>'] ==> mail.author@ == name,
        header_field(header_block(raw), "From"@) matches Some(v) ==> mime_decoded(v) == seq!['"']
            + name + seq!['"', ' ', '<'] + address + seq!['>'] ==> mail.author@ == name,
        header_field(header_block(raw), "From"@) is None ==> mail.author@.len() == 0,
        header_field(header_block(raw), "Date"@) matches Some(v) ==> v.len() > 0 ==> (
        rfc2822_stamp(v) matches Some((secs, nanos, offset)) ==> (mail.date matches Some(d)
            && d.moment.secs == secs && d.moment.nanos == nanos && d.offset == offset)),
        header_field(header_block(raw), "Date"@) is None ==> mail.date is None,
{
    let none = Seq::<char>::empty();
    law_a_sender_is_shown_by_name(none, 0, name, 0, seq![' '], address + seq!['>']);
    law_a_sender_is_shown_by_name(none, 1, name, 1, seq![' '], address + seq!['>']);
    assert(none + (repeated('"', 0) + name + repeated('"', 0)) + seq![' '] + seq!['<'] + (address
        + seq!['>']) =~= name + seq![' ', '<'] + address + seq!['>']);
    assert(none + (repeated('"', 1) + name + repeated('"', 1)) + seq![' '] + seq!['<'] + (address
        + seq!['>']) =~= seq!['"'] + name + seq!['"', ' ', '<'] + address + seq!['>']);
    if let Some(v) = header_field(header_block(raw), "Date"@) {
        if v.len() > 0 {
            law_dates_are_kept_as_they_were_read(v);
        }
    }
}

} // verus!
