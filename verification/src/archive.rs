//! The archive of a mailing list: where its epochs are kept, how git is asked
//! about them, and how a raw mail becomes an entry of a list.

use vstd::prelude::*;
use vstd::utf8::{encode_utf8, encode_utf8_decode_utf8, encode_utf8_valid_utf8};

use crate::clock::{Moment, Stamp};
use crate::mail::Mail;
use crate::outside::{
    from_utf8_lossy, gunzip, gunzip_text, parse_rfc2822, parse_rfc3339, rfc2822_stamp,
    rfc3339_stamp, utf8_text,
};
use crate::parse::{
    escape_at, escape_of, escaped, escapes, extract_header, header_block, header_field,
    lemma_encode_ascii_head, lemma_escape_digits, lemma_hex_of_digit, split_header,
};
use crate::text::{
    chars_of, contains_text, decimal, digits_value, find, find_char, find_mark, find_text,
    is_digit, is_white, is_whitespace, law_decimal_reads_back, lemma_find_char,
    lemma_find_char_bounds, lemma_find_text, lemma_find_text_bounds, lines, matches_at, occurs_at,
    opt_text, part, position, push_decimal, push_range, read_number, split_lines, string_of, texts,
    trim, trim_mark, trimmed, trimmed_of, views,
};

verus! {

// ---------------------------------------------------------------------------
// Where things are
// ---------------------------------------------------------------------------

/// `rel` seen from the directory `base`: a path that starts at the root stands
/// for itself, and one separator stands between the two.
pub open spec fn joined(base: Seq<char>, rel: Seq<char>) -> Seq<char> {
    if rel.len() > 0 && rel[0] == '/' {
        rel
    } else if base.len() > 0 && base.last() != '/' {
        base + seq!['/'] + rel
    } else {
        base + rel
    }
}

/// `rel` seen from the directory `base`.
pub fn join_path(base: &str, rel: &str) -> (r: String)
    ensures
        r@ == joined(base@, rel@),
{
    let b = chars_of(base);
    let n = chars_of(rel);
    let mut out = String::new();
    if n.len() > 0 && n[0] == '/' {
        out.append(rel);
        assert(out@ =~= joined(base@, rel@));
        return out;
    }
    out.append(base);
    if b.len() > 0 && b[b.len() - 1] != '/' {
        out.push('/');
    }
    out.append(rel);
    assert(out@ =~= joined(base@, rel@));
    out
}

/// The directory of the mirrors: under the cache directory of the user, under
/// the home directory where that is not set, and else under `/tmp`.
pub open spec fn mirror_root(cache_home: Option<Seq<char>>, home: Option<Seq<char>>) -> Seq<char> {
    let base = match (cache_home, home) {
        (Some(dir), _) => dir,
        (None, Some(dir)) => dir + "/.cache"@,
        (None, None) => "/tmp"@,
    };
    joined(base, "lkml-reader/archives"@)
}

/// The directory of the mirrors, from `$XDG_CACHE_HOME` and `$HOME`.
pub fn archive_root(cache_home: Option<String>, home: Option<String>) -> (r: String)
    ensures
        r@ == mirror_root(opt_text(cache_home), opt_text(home)),
{
    let base = match cache_home {
        Some(dir) => dir,
        None => match home {
            Some(dir) => dir.concat("/.cache"),
            None => "/tmp".to_string(),
        },
    };
    join_path(base.as_str(), "lkml-reader/archives")
}

/// The path of a mirror below the directory of the mirrors.
pub open spec fn mirror_path(root: Seq<char>, list: Seq<char>, epoch: u32) -> Seq<char> {
    joined(root, list + "/"@ + decimal(epoch as nat) + ".git"@)
}

/// Where the mirror of an epoch is kept, below the directory of the mirrors.
pub fn local_repo_path(root: &str, list: &str, epoch: u32) -> (r: String)
    ensures
        r@ == mirror_path(root@, list@, epoch),
{
    let mut rel = String::new();
    rel.append(list);
    rel.append("/");
    push_decimal(&mut rel, epoch as u64);
    rel.append(".git");
    assert(rel@ =~= list@ + "/"@ + decimal(epoch as nat) + ".git"@);
    join_path(root, rel.as_str())
}

/// Where the catalog of all lists is.
pub fn manifest_url() -> (r: String)
    ensures
        r@ == "https://lore.kernel.org"@ + "/manifest.js.gz"@,
{
    let mut out = String::new();
    out.append("https://lore.kernel.org");
    out.append("/manifest.js.gz");
    assert(out@ =~= "https://lore.kernel.org"@ + "/manifest.js.gz"@);
    out
}

/// The address of the repository of an epoch.
pub open spec fn epoch_url(list: Seq<char>, epoch: u32) -> Seq<char> {
    "https://lore.kernel.org"@ + "/"@ + list + "/git/"@ + decimal(epoch as nat) + ".git"@
}

/// The address of the repository of an epoch.
pub fn repo_url(list: &str, epoch: u32) -> (r: String)
    ensures
        r@ == epoch_url(list@, epoch),
{
    let mut out = String::new();
    out.append("https://lore.kernel.org");
    out.append("/");
    out.append(list);
    out.append("/git/");
    push_decimal(&mut out, epoch as u64);
    out.append(".git");
    assert(out@ =~= epoch_url(list@, epoch));
    out
}

/// What a mirror's path holds before the number of its epoch.
pub open spec fn mirror_head(root: Seq<char>, list: Seq<char>) -> Seq<char> {
    joined(root, list + "/"@)
}

proof fn lemma_mirror_path(root: Seq<char>, list: Seq<char>, epoch: u32)
    ensures
        mirror_path(root, list, epoch) == mirror_head(root, list) + decimal(epoch as nat)
            + ".git"@,
{
    reveal_strlit("/");
    let rel = list + "/"@;
    let tail = decimal(epoch as nat) + ".git"@;
    assert(list + "/"@ + decimal(epoch as nat) + ".git"@ =~= rel + tail);
    assert((rel + tail)[0] == rel[0]);
    assert(joined(root, rel + tail) =~= joined(root, rel) + tail);
    assert(mirror_path(root, list, epoch) =~= mirror_head(root, list) + decimal(epoch as nat)
        + ".git"@);
}

/// Two epochs of a list never share a mirror, nor an address.
pub proof fn law_each_epoch_has_its_own_mirror(root: Seq<char>, list: Seq<char>, a: u32, b: u32)
    requires
        a != b,
    ensures
        mirror_path(root, list, a) != mirror_path(root, list, b),
        epoch_url(list, a) != epoch_url(list, b),
{
    lemma_mirror_path(root, list, a);
    lemma_mirror_path(root, list, b);
    lemma_number_shows(mirror_head(root, list), a as nat, b as nat, ".git"@);
    lemma_number_shows("https://lore.kernel.org"@ + "/"@ + list + "/git/"@, a as nat, b as nat, ".git"@);
}

/// Two numbers written in the same place differ there.
proof fn lemma_number_shows(head: Seq<char>, a: nat, b: nat, tail: Seq<char>)
    requires
        a != b,
    ensures
        head + decimal(a) + tail != head + decimal(b) + tail,
{
    let x = head + decimal(a) + tail;
    let y = head + decimal(b) + tail;
    if x == y {
        let n = head.len() as int;
        assert(x.len() == n + decimal(a).len() + tail.len());
        assert(y.len() == n + decimal(b).len() + tail.len());
        assert(x.subrange(n, n + decimal(a).len()) =~= decimal(a));
        assert(y.subrange(n, n + decimal(b).len()) =~= decimal(b));
        law_decimal_reads_back(a);
        law_decimal_reads_back(b);
    }
}

// ---------------------------------------------------------------------------
// The catalog of epochs
// ---------------------------------------------------------------------------

/// Why the catalog could not be had.
#[derive(Clone, Copy, Debug, PartialEq, Eq, Structural)]
pub enum ManifestError {
    /// The server refused it, with this status.
    Status(u16),
    /// What the server sent could not be unpacked.
    Unpacking,
}

/// The text of the catalog, from the answer of the server.
pub open spec fn manifest_of(status: u16, body: Seq<u8>) -> Result<Seq<char>, ManifestError> {
    if !(200 <= status < 300) {
        Err(ManifestError::Status(status))
    } else {
        match gunzip_text(body) {
            Some(text) => Ok(text),
            None => Err(ManifestError::Unpacking),
        }
    }
}

/// Unpacks the catalog that the server sent.
pub fn unpack_manifest(status: u16, body: &[u8]) -> (r: Result<String, ManifestError>)
    ensures
        match r {
            Ok(text) => manifest_of(status, body@) == Ok::<Seq<char>, ManifestError>(text@),
            Err(e) => manifest_of(status, body@) == Err::<Seq<char>, ManifestError>(e),
        },
{
    if status < 200 || status >= 300 {
        return Err(ManifestError::Status(status));
    }
    match gunzip(body) {
        Some(text) => Ok(text),
        None => Err(ManifestError::Unpacking),
    }
}

/// The message that says why the catalog could not be had from `url`; `shown`
/// is the server's status as it is shown.
pub fn manifest_failure(error: ManifestError, shown: &str, url: &str) -> (r: String)
    ensures
        r@ == match error {
            ManifestError::Status(_) => "manifest fetch failed ("@ + shown@ + "): "@ + url@,
            ManifestError::Unpacking => "decompressing manifest"@,
        },
{
    match error {
        ManifestError::Status(_) => {
            let mut out = "manifest fetch failed (".to_string();
            out.append(shown);
            out.append("): ");
            out.append(url);
            out
        },
        ManifestError::Unpacking => "decompressing manifest".to_string(),
    }
}

/// What stands before the number of each epoch of a list in the catalog.
pub open spec fn epoch_prefix(list: Seq<char>) -> Seq<char> {
    "\"/"@ + list + "/git/"@
}

/// The places at or behind `from` where `prefix` stands, none overlapping the
/// one before it.
pub open spec fn places(json: Seq<char>, prefix: Seq<char>, from: int) -> Seq<int>
    decreases json.len() - from,
    when prefix.len() > 0
    via places_decreases
{
    match find_text(json, prefix, from) {
        None => seq![],
        Some(i) => seq![i] + places(json, prefix, i + prefix.len()),
    }
}

#[via_fn]
proof fn places_decreases(json: Seq<char>, prefix: Seq<char>, from: int) {
    lemma_find_text_bounds(json, prefix, from);
}

/// Where the digits that start at `from` end.
pub open spec fn digits_end(s: Seq<char>, from: int) -> int
    decreases s.len() - from,
{
    if from < s.len() && is_digit(s[from]) {
        digits_end(s, from + 1)
    } else {
        from
    }
}

/// The number written at `from`, where there is one that fits.
pub open spec fn number_at(s: Seq<char>, from: int) -> Option<u32> {
    let end = digits_end(s, from);
    let n = digits_value(s.subrange(from, end));
    if from < end && n <= u32::MAX {
        Some(n as u32)
    } else {
        None
    }
}

/// The catalog lists the epoch `n` of a list.
pub open spec fn lists_epoch(json: Seq<char>, list: Seq<char>, n: u32) -> bool {
    let prefix = epoch_prefix(list);
    let at = places(json, prefix, 0);
    exists|k: int| 0 <= k < at.len() && number_at(json, #[trigger] at[k] + prefix.len()) == Some(n)
}

/// The numbers ascend, and none comes twice.
pub open spec fn ascending(v: Seq<u32>) -> bool {
    forall|i: int, j: int| 0 <= i < j < v.len() ==> #[trigger] v[i] < #[trigger] v[j]
}

/// Adds `n` to ascending numbers, unless it is there.
fn add_number(v: &mut Vec<u32>, n: u32)
    requires
        ascending(old(v)@),
    ensures
        ascending(final(v)@),
        forall|m: u32| #[trigger] final(v)@.contains(m) <==> m == n || old(v)@.contains(m),
{
    let ghost before = v@;
    let mut i: usize = 0;
    while i < v.len() && v[i] < n
        invariant
            i <= v.len(),
            v@ == before,
            forall|j: int| 0 <= j < i ==> #[trigger] v@[j] < n,
        decreases v.len() - i,
    {
        i += 1;
    }
    if i < v.len() && v[i] == n {
        assert(before[i as int] == n);
        return;
    }
    v.insert(i, n);
    proof {
        let after = v@;
        assert forall|m: u32| #[trigger] after.contains(m) <==> m == n || before.contains(m) by {
            if m == n {
                assert(after[i as int] == n);
            }
            if before.contains(m) {
                let j = choose|j: int| 0 <= j < before.len() && before[j] == m;
                assert(after[if j < i { j } else { j + 1 }] == m);
            }
            if after.contains(m) && m != n {
                let j = choose|j: int| 0 <= j < after.len() && after[j] == m;
                assert(before[if j < i { j } else { j - 1 }] == m);
            }
        }
        assert forall|a: int, b: int| 0 <= a < b < after.len() implies #[trigger] after[a]
            < #[trigger] after[b] by {
            let x = if a < i { a } else { a - 1 };
            let y = if b < i { b } else { b - 1 };
            if a != i && b != i {
                assert(before[x] < before[y]);
            } else if a == i {
                if y > i {
                    assert(before[i as int] < before[y]);
                }
            }
        }
    }
}

/// The number written at `from`, where there is one that fits.
fn read_number_at(s: &Vec<char>, from: usize) -> (r: Option<u32>)
    requires
        from <= s.len(),
    ensures
        r == number_at(s@, from as int),
{
    let mut end = from;
    while end < s.len() && '0' <= s[end] && s[end] <= '9'
        invariant
            from <= end <= s.len(),
            digits_end(s@, from as int) == digits_end(s@, end as int),
            forall|j: int| from <= j < end ==> is_digit(#[trigger] s@[j]),
        decreases s.len() - end,
    {
        end += 1;
    }
    if from == end {
        return None;
    }
    read_number(s, from, end)
}

/// The epochs of a list that the catalog names, ascending.
pub fn manifest_epochs(json: &str, list: &str) -> (r: Vec<u32>)
    ensures
        ascending(r@),
        forall|n: u32| #[trigger] r@.contains(n) <==> lists_epoch(json@, list@, n),
{
    let all = chars_of(json);
    let mut head = String::new();
    head.append("\"/");
    head.append(list);
    head.append("/git/");
    let prefix = chars_of(head.as_str());
    proof {
        reveal_strlit("\"/");
    }
    assert(prefix@ =~= epoch_prefix(list@));
    let ghost at = places(json@, prefix@, 0);
    let mut epochs: Vec<u32> = Vec::new();
    let mut from: usize = 0;
    let ghost mut seen: int = 0;
    assert(at.skip(0) =~= at);
    let mut next = find(&all, &prefix, from);
    while next.is_some()
        invariant
            all@ == json@,
            position(next) == find_text(json@, prefix@, from as int),
            next matches Some(i) ==> from <= i && i + prefix.len() <= all.len(),
            prefix@ == epoch_prefix(list@),
            prefix@.len() > 0,
            at == places(json@, prefix@, 0),
            from <= all.len(),
            0 <= seen <= at.len(),
            at.skip(seen) == places(json@, prefix@, from as int),
            ascending(epochs@),
            forall|n: u32| #[trigger]
                epochs@.contains(n) <==> exists|k: int|
                    0 <= k < seen && number_at(json@, #[trigger] at[k] + prefix@.len()) == Some(n),
        decreases all.len() - from,
    {
        let i = next.unwrap();
        let start = i + prefix.len();
        proof {
            assert(places(json@, prefix@, from as int)[0] == i);
            assert(at.skip(seen).len() == at.len() - seen);
            assert(at[seen] == at.skip(seen)[0]);
            assert(at.skip(seen + 1) =~= at.skip(seen).skip(1));
            assert(places(json@, prefix@, from as int).skip(1) =~= places(
                json@,
                prefix@,
                start as int,
            ));
        }
        let ghost before = epochs@;
        let number = read_number_at(&all, start);
        if let Some(n) = number {
            add_number(&mut epochs, n);
        }
        from = start;
        proof {
            assert forall|n: u32| #[trigger]
                epochs@.contains(n) <==> exists|k: int|
                    0 <= k < seen + 1 && number_at(json@, #[trigger] at[k] + prefix@.len()) == Some(
                        n,
                    ) by {
                if number == Some(n) {
                    assert(number_at(json@, at[seen] + prefix@.len()) == Some(n));
                }
                if before.contains(n) {
                    let k = choose|k: int|
                        0 <= k < seen && number_at(json@, #[trigger] at[k] + prefix@.len()) == Some(
                            n,
                        );
                    assert(number_at(json@, at[k] + prefix@.len()) == Some(n));
                }
            }
            seen = seen + 1;
        }
        next = find(&all, &prefix, from);
    }
    assert(at.skip(seen).len() == 0);
    epochs
}

/// The name of the directory of a mirror.
pub open spec fn mirror_name(epoch: u32) -> Seq<char> {
    decimal(epoch as nat) + ".git"@
}

pub proof fn lemma_digits_end(s: Seq<char>, from: int, end: int)
    requires
        0 <= from <= end < s.len(),
        forall|i: int| from <= i < end ==> is_digit(#[trigger] s[i]),
        !is_digit(s[end]),
    ensures
        digits_end(s, from) == end,
    decreases end - from,
{
    if from < end {
        lemma_digits_end(s, from + 1, end);
    }
}

proof fn lemma_name_number(epoch: u32)
    ensures
        number_at(mirror_name(epoch), 0) == Some(epoch),
{
    let name = mirror_name(epoch);
    let digits = decimal(epoch as nat);
    let end = digits.len() as int;
    reveal_strlit(".git");
    law_decimal_reads_back(epoch as nat);
    assert forall|i: int| 0 <= i < end implies is_digit(#[trigger] name[i]) by {
        assert(name[i] == digits[i]);
    }
    assert(name[end] == '.');
    lemma_digits_end(name, 0, end);
    assert(name.subrange(0, end) =~= digits);
}

/// The epoch whose mirror has the name `name`, where there is one.
pub fn epoch_of_name(name: &str) -> (r: Option<u32>)
    ensures
        forall|n: u32| #[trigger] mirror_name(n) == name@ <==> r == Some(n),
{
    let all = chars_of(name);
    let number = read_number_at(&all, 0);
    proof {
        assert forall|n: u32| #[trigger] mirror_name(n) == name@ implies number == Some(n) by {
            lemma_name_number(n);
        }
    }
    match number {
        None => None,
        Some(n) => {
            let mut own = String::new();
            push_decimal(&mut own, n as u64);
            own.append(".git");
            assert(own@ =~= mirror_name(n));
            let own = chars_of(own.as_str());
            if own.len() == all.len() && matches_at(&all, &own, 0) {
                assert(all@.subrange(0, all@.len() as int) =~= all@);
                Some(n)
            } else {
                assert(all@.subrange(0, all@.len() as int) =~= all@);
                None
            }
        },
    }
}

/// The epochs of which a mirror stands among the names of a directory,
/// ascending.
pub fn cloned_epochs(names: &Vec<String>) -> (r: Vec<u32>)
    ensures
        ascending(r@),
        forall|n: u32| #[trigger] r@.contains(n) <==> texts(names@).contains(mirror_name(n)),
{
    let mut epochs: Vec<u32> = Vec::new();
    let mut i: usize = 0;
    let ghost all = texts(names@);
    while i < names.len()
        invariant
            i <= names.len(),
            all == texts(names@),
            ascending(epochs@),
            forall|n: u32| #[trigger]
                epochs@.contains(n) <==> all.take(i as int).contains(mirror_name(n)),
        decreases names.len() - i,
    {
        let found = epoch_of_name(names[i].as_str());
        let ghost before = epochs@;
        if let Some(n) = found {
            add_number(&mut epochs, n);
        }
        proof {
            let part = all.take(i as int);
            let next = all.take(i + 1);
            assert(next =~= part.push(all[i as int]));
            assert(all[i as int] == names@[i as int]@);
            assert forall|n: u32| #[trigger] epochs@.contains(n) <==> next.contains(
                mirror_name(n),
            ) by {
                let name = mirror_name(n);
                if next.contains(name) {
                    let k = choose|k: int| 0 <= k < next.len() && next[k] == name;
                    if k < i {
                        assert(part[k] == name);
                    }
                }
                if part.contains(name) {
                    let k = choose|k: int| 0 <= k < part.len() && part[k] == name;
                    assert(next[k] == name);
                }
                if all[i as int] == name {
                    assert(next[i as int] == name);
                }
                assert(before.contains(n) <==> part.contains(name));
            }
        }
        i += 1;
    }
    assert(all.take(i as int) =~= all);
    epochs
}

// ---------------------------------------------------------------------------
// Asking git
// ---------------------------------------------------------------------------

/// The argument that names a repository to git.
pub open spec fn git_dir(dir: Seq<char>) -> Seq<char> {
    "--git-dir="@ + dir
}

/// The argument that names a repository to git.
fn git_dir_arg(dir: &str) -> (r: String)
    ensures
        r@ == git_dir(dir@),
{
    "--git-dir=".to_string().concat(dir)
}

/// The arguments with which git brings the mirror in `dir` up to date. A mirror
/// that is not there is refused.
pub fn update_mirror(dir: &str, present: bool) -> (r: Result<Vec<String>, String>)
    ensures
        match r {
            Ok(args) => present && texts(args@) == seq![git_dir(dir@), "remote"@, "update"@],
            Err(e) => !present && e@ == "mirror not present: "@ + dir@,
        },
{
    if !present {
        return Err("mirror not present: ".to_string().concat(dir));
    }
    let args = vec![git_dir_arg(dir), "remote".to_string(), "update".to_string()];
    assert(texts(args@) =~= seq![git_dir(dir@), "remote"@, "update"@]);
    Ok(args)
}

/// The arguments with which git clones an epoch into the mirror in `dir`. A
/// mirror that is there already is refused.
pub fn clone_mirror(list: &str, epoch: u32, dir: &str, present: bool) -> (r: Result<
    Vec<String>,
    String,
>)
    ensures
        match r {
            Ok(args) => !present && texts(args@) == seq![
                "clone"@,
                "--mirror"@,
                epoch_url(list@, epoch),
                dir@,
            ],
            Err(e) => present && e@ == "mirror already exists: "@ + dir@,
        },
{
    if present {
        return Err("mirror already exists: ".to_string().concat(dir));
    }
    let args = vec![
        "clone".to_string(),
        "--mirror".to_string(),
        repo_url(list, epoch),
        dir.to_string(),
    ];
    assert(texts(args@) =~= seq!["clone"@, "--mirror"@, epoch_url(list@, epoch), dir@]);
    Ok(args)
}

/// The arguments with which git lists the commits of a mirror, newest first.
pub fn log_args(dir: &str) -> (r: Vec<String>)
    ensures
        texts(r@) == seq![git_dir(dir@), "log"@, "--pretty=format:%H"@],
{
    let r = vec![git_dir_arg(dir), "log".to_string(), "--pretty=format:%H".to_string()];
    assert(texts(r@) =~= seq![git_dir(dir@), "log"@, "--pretty=format:%H"@]);
    r
}

/// The arguments with which git shows the mail of a commit.
pub fn show_args(dir: &str, commit: &str) -> (r: Vec<String>)
    ensures
        texts(r@) == seq![git_dir(dir@), "show"@, commit@ + ":m"@],
{
    let blob = commit.to_string().concat(":m");
    let r = vec![git_dir_arg(dir), "show".to_string(), blob];
    assert(texts(r@) =~= seq![git_dir(dir@), "show"@, commit@ + ":m"@]);
    r
}

/// What git answered to a command: its output where it succeeded, and else a
/// message that names the command and what git wrote about it.
pub open spec fn git_reply(
    command: Seq<char>,
    success: bool,
    stdout: Seq<u8>,
    stderr: Seq<u8>,
) -> Result<Seq<char>, Seq<char>> {
    if success {
        Ok(utf8_text(stdout))
    } else {
        Err(command + " failed: "@ + utf8_text(stderr))
    }
}

/// What git answered to a command.
pub fn git_answer(command: &str, success: bool, stdout: &[u8], stderr: &[u8]) -> (r: Result<
    String,
    String,
>)
    ensures
        match r {
            Ok(out) => git_reply(command@, success, stdout@, stderr@) == Ok::<
                Seq<char>,
                Seq<char>,
            >(out@),
            Err(e) => git_reply(command@, success, stdout@, stderr@) == Err::<
                Seq<char>,
                Seq<char>,
            >(e@),
        },
{
    if success {
        Ok(from_utf8_lossy(stdout))
    } else {
        let mut message = command.to_string();
        message.append(" failed: ");
        message.append(from_utf8_lossy(stderr).as_str());
        Err(message)
    }
}

/// The mail of a commit, from what git answered.
pub fn show_mail(success: bool, stdout: &[u8], stderr: &[u8]) -> (r: Result<String, String>)
    ensures
        match r {
            Ok(raw) => success && raw@ == utf8_text(stdout@),
            Err(e) => !success && e@ == "git show"@ + " failed: "@ + utf8_text(stderr@),
        },
{
    git_answer("git show", success, stdout, stderr)
}

/// The commits of a mirror, newest first, from what git answered.
pub fn list_all_commits(success: bool, stdout: &[u8], stderr: &[u8]) -> (r: Result<
    Vec<String>,
    String,
>)
    ensures
        match r {
            Ok(commits) => success && texts(commits@) == filled(lines(utf8_text(stdout@))),
            Err(e) => !success && e@ == "git log"@ + " failed: "@ + utf8_text(stderr@),
        },
{
    match git_answer("git log", success, stdout, stderr) {
        Ok(listing) => Ok(commit_lines(listing.as_str())),
        Err(e) => Err(e),
    }
}

/// The lines of `rows` that are not empty, in their order.
pub open spec fn filled(rows: Seq<Seq<char>>) -> Seq<Seq<char>> {
    rows.filter(|row: Seq<char>| row.len() > 0)
}

/// The commits that git listed, one a line.
pub fn commit_lines(listing: &str) -> (r: Vec<String>)
    ensures
        texts(r@) == filled(lines(listing@)),
{
    let rows = split_lines(&chars_of(listing));
    let ghost all = lines(listing@);
    let ghost p = |row: Seq<char>| row.len() > 0;
    let mut out: Vec<String> = Vec::new();
    let mut i: usize = 0;
    assert(all.take(0) =~= seq![]);
    reveal(Seq::filter);
    assert(texts(out@) =~= all.take(0).filter(p));
    while i < rows.len()
        invariant
            i <= rows.len(),
            all == views(rows@),
            p == (|row: Seq<char>| row.len() > 0),
            texts(out@) == all.take(i as int).filter(p),
        decreases rows.len() - i,
    {
        let ghost before = out@;
        proof {
            reveal(Seq::filter);
            assert(all.take(i + 1).drop_last() =~= all.take(i as int));
            assert(all.take(i + 1).last() == rows@[i as int]@);
        }
        if rows[i].len() > 0 {
            out.push(string_of(&rows[i]));
            assert(texts(out@) =~= texts(before).push(rows@[i as int]@));
        }
        i += 1;
    }
    assert(all.take(i as int) =~= all);
    out
}

// ---------------------------------------------------------------------------
// Encoded words in headers
// ---------------------------------------------------------------------------

/// The value of a character of the base64 alphabet.
pub open spec fn sextet(b: u8) -> Option<u8> {
    if 65 <= b <= 90 {
        Some((b - 65) as u8)
    } else if 97 <= b <= 122 {
        Some((b - 71) as u8)
    } else if 48 <= b <= 57 {
        Some((b + 4) as u8)
    } else if b == 43 {
        Some(62)
    } else if b == 47 {
        Some(63)
    } else {
        None
    }
}

/// ASCII white space: tab, line feed, form feed, carriage return, space.
pub open spec fn is_ascii_space(b: u8) -> bool {
    b == 9 || b == 10 || b == 12 || b == 13 || b == 32
}

/// The values of base64 characters from `i` on, up to a padding character or
/// the end, white space passed over; nothing where another character stands.
pub open spec fn sextets(b: Seq<u8>, i: int) -> Option<Seq<u8>>
    decreases b.len() - i,
{
    if i >= b.len() {
        Some(seq![])
    } else if is_ascii_space(b[i]) {
        sextets(b, i + 1)
    } else if b[i] == 61 {
        Some(seq![])
    } else {
        match (sextet(b[i]), sextets(b, i + 1)) {
            (Some(v), Some(rest)) => Some(seq![v] + rest),
            _ => None,
        }
    }
}

/// How many whole bytes `n` groups of six bits make.
pub open spec fn packed_len(n: int) -> int {
    n * 6 / 8
}

/// The `k`-th byte of groups of six bits, laid end to end.
pub open spec fn packed_byte(d: Seq<u8>, k: int) -> u8 {
    let q = k / 3;
    if k % 3 == 0 {
        (d[4 * q] * 4 + d[4 * q + 1] / 16) as u8
    } else if k % 3 == 1 {
        ((d[4 * q + 1] % 16) * 16 + d[4 * q + 2] / 4) as u8
    } else {
        ((d[4 * q + 2] % 4) * 64 + d[4 * q + 3]) as u8
    }
}

/// The bytes that groups of six bits make, laid end to end.
pub open spec fn packed(d: Seq<u8>) -> Seq<u8> {
    Seq::new(packed_len(d.len() as int) as nat, |k: int| packed_byte(d, k))
}

/// What base64 characters stand for.
pub open spec fn base64_bytes(b: Seq<u8>) -> Option<Seq<u8>> {
    match sextets(b, 0) {
        Some(d) => Some(packed(d)),
        None => None,
    }
}

/// The value of a character of the base64 alphabet.
fn sextet_value(b: u8) -> (r: Option<u8>)
    ensures
        r == sextet(b),
        r matches Some(v) ==> v < 64,
{
    if 65 <= b && b <= 90 {
        Some(b - 65)
    } else if 97 <= b && b <= 122 {
        Some(b - 71)
    } else if 48 <= b && b <= 57 {
        Some(b + 4)
    } else if b == 43 {
        Some(62)
    } else if b == 47 {
        Some(63)
    } else {
        None
    }
}

/// Lays groups of six bits end to end and cuts them into bytes.
fn pack(d: &Vec<u8>) -> (r: Vec<u8>)
    requires
        forall|i: int| 0 <= i < d.len() ==> #[trigger] d[i] < 64,
    ensures
        r@ == packed(d@),
{
    let n: usize = d.len() / 4 * 3 + (d.len() % 4) * 3 / 4;
    assert(n == packed_len(d.len() as int));
    let mut out: Vec<u8> = Vec::new();
    let mut k: usize = 0;
    while k < n
        invariant
            k <= n,
            n == packed_len(d.len() as int),
            forall|i: int| 0 <= i < d.len() ==> #[trigger] d[i] < 64,
            out@ == packed(d@).take(k as int),
        decreases n - k,
    {
        let q: usize = k / 3;
        let byte: u8 = if k % 3 == 0 {
            d[4 * q] * 4 + d[4 * q + 1] / 16
        } else if k % 3 == 1 {
            (d[4 * q + 1] % 16) * 16 + d[4 * q + 2] / 4
        } else {
            (d[4 * q + 2] % 4) * 64 + d[4 * q + 3]
        };
        out.push(byte);
        k += 1;
        assert(out@ =~= packed(d@).take(k as int));
    }
    assert(out@ =~= packed(d@));
    out
}

/// Decodes the base64 form of bytes. White space is passed over, padding ends
/// the data, and any other character is refused.
pub fn decode_base64(s: &str) -> (r: Option<Vec<u8>>)
    ensures
        match r {
            Some(bytes) => base64_bytes(encode_utf8(s@)) == Some(bytes@),
            None => base64_bytes(encode_utf8(s@)) is None,
        },
{
    let b = s.as_bytes();
    let mut d: Vec<u8> = Vec::new();
    let mut i: usize = 0;
    let ghost goal = sextets(b@, 0);
    proof {
        if let Some(rest) = sextets(b@, 0) {
            assert(d@ + rest =~= rest);
        }
    }
    while i < b.len()
        invariant_except_break
            i <= b.len(),
            match sextets(b@, i as int) {
                Some(rest) => goal == Some(d@ + rest),
                None => goal is None,
            },
        invariant
            b@ == encode_utf8(s@),
            goal == sextets(b@, 0),
            forall|j: int| 0 <= j < d.len() ==> #[trigger] d[j] < 64,
        ensures
            goal == Some(d@),
        decreases b.len() - i,
    {
        let c = b[i];
        if c == 61 {
            assert(d@ + seq![] =~= d@);
            break;
        }
        if !(c == 9 || c == 10 || c == 12 || c == 13 || c == 32) {
            match sextet_value(c) {
                Some(v) => {
                    let ghost before = d@;
                    d.push(v);
                    proof {
                        if let Some(rest) = sextets(b@, i + 1) {
                            assert(before + (seq![v] + rest) =~= d@ + rest);
                        }
                    }
                },
                None => {
                    return None;
                },
            }
        }
        i += 1;
        proof {
            if i == b.len() {
                assert(d@ + seq![] =~= d@);
            }
        }
    }
    Some(pack(&d))
}

/// The text of a `Q` encoded word from `i` on, as bytes: an underscore is a
/// space, `=XX` is the byte with that value, everything else is kept.
pub open spec fn q_bytes(b: Seq<u8>, i: int) -> Seq<u8>
    decreases b.len() - i,
{
    if i >= b.len() {
        seq![]
    } else if b[i] == 95 {
        seq![32u8] + q_bytes(b, i + 1)
    } else if b[i] == 61 && escaped(b, i) is Some {
        seq![escaped(b, i)->0] + q_bytes(b, i + 3)
    } else {
        seq![b[i]] + q_bytes(b, i + 1)
    }
}

/// Decodes the text of a `Q` encoded word.
pub fn decode_q(s: &str) -> (r: Vec<u8>)
    ensures
        r@ == q_bytes(encode_utf8(s@), 0),
{
    let b = s.as_bytes();
    let mut out: Vec<u8> = Vec::new();
    let mut i: usize = 0;
    assert(out@ + q_bytes(b@, 0) =~= q_bytes(b@, 0));
    while i < b.len()
        invariant
            i <= b.len(),
            out@ + q_bytes(b@, i as int) == q_bytes(b@, 0),
        decreases b.len() - i,
    {
        let ghost before = out@;
        let ghost at = i as int;
        let escape = if b[i] == 61 { escape_at(b, i) } else { None };
        if b[i] == 95 {
            out.push(32);
            i += 1;
        } else if let Some(v) = escape {
            out.push(v);
            i += 3;
        } else {
            out.push(b[i]);
            i += 1;
        }
        assert(before + q_bytes(b@, at) =~= out@ + q_bytes(b@, i as int));
    }
    assert(out@ + q_bytes(b@, i as int) =~= out@);
    out
}

/// The bytes of an encoded word, by its encoding.
pub open spec fn word_bytes(encoding: Seq<char>, text: Seq<char>) -> Option<Seq<u8>> {
    if encoding == seq!['B'] || encoding == seq!['b'] {
        base64_bytes(encode_utf8(text))
    } else if encoding == seq!['Q'] || encoding == seq!['q'] {
        Some(q_bytes(encode_utf8(text), 0))
    } else {
        None
    }
}

/// What stands between `=?` and `?=`, decoded: a charset, an encoding and a
/// text, with question marks between.
pub open spec fn encoded_word(body: Seq<char>) -> Option<Seq<char>> {
    match find_char(body, '?', 0) {
        None => None,
        Some(i) => match find_char(body, '?', i + 1) {
            None => None,
            Some(j) => match word_bytes(body.subrange(i + 1, j), body.skip(j + 1)) {
                None => None,
                Some(bytes) => Some(utf8_text(bytes)),
            },
        },
    }
}

/// Decodes the text of an encoded word, by its encoding: `B` or `Q`.
pub fn decode_word_text(encoding: &Vec<char>, text: &str) -> (r: Option<Vec<u8>>)
    ensures
        match r {
            Some(bytes) => word_bytes(encoding@, text@) == Some(bytes@),
            None => word_bytes(encoding@, text@) is None,
        },
{
    if encoding.len() != 1 {
        return None;
    }
    let e = encoding[0];
    assert(encoding@ =~= seq![e]);
    if e == 'B' || e == 'b' {
        return decode_base64(text);
    }
    assert(seq![e][0] == e && seq!['B'][0] == 'B' && seq!['b'][0] == 'b');
    if e == 'Q' || e == 'q' {
        return Some(decode_q(text));
    }
    assert(seq!['Q'][0] == 'Q' && seq!['q'][0] == 'q');
    None
}

/// Decodes what stands between `=?` and `?=`.
pub fn decode_encoded_word(body: &Vec<char>) -> (r: Option<String>)
    ensures
        opt_text(r) == encoded_word(body@),
{
    let i = match find_mark(body, '?', 0) {
        Some(i) => i,
        None => {
            return None;
        },
    };
    let j = match find_mark(body, '?', i + 1) {
        Some(j) => j,
        None => {
            return None;
        },
    };
    let encoding = part(body, i + 1, j);
    let text = string_of(&part(body, j + 1, body.len()));
    assert(text@ =~= body@.skip(j + 1));
    match decode_word_text(&encoding, text.as_str()) {
        Some(bytes) => Some(from_utf8_lossy(bytes.as_slice())),
        None => None,
    }
}

/// All of `s` is white space.
pub open spec fn all_white(s: Seq<char>) -> bool {
    forall|i: int| 0 <= i < s.len() ==> is_white(#[trigger] s[i])
}

/// The text is one piece: no white space and no question mark stands in it.
pub open spec fn one_piece(s: Seq<char>) -> bool {
    forall|i: int| 0 <= i < s.len() ==> #[trigger] s[i] != '?' && !is_white(s[i])
}

/// Where the word that opens at `start` ends. An encoded word whose text is one
/// piece ends at the first `?=` behind its encoding, so its text may begin with
/// `=`; everything else ends at the first `?=` of all.
pub open spec fn word_end(s: Seq<char>, start: int) -> Option<int> {
    let first = find_text(s, "?="@, start + 2);
    match find_char(s, '?', start + 2) {
        None => first,
        Some(i) => match find_char(s, '?', i + 1) {
            None => first,
            Some(j) => match find_text(s, "?="@, j + 1) {
                None => first,
                Some(end) => if one_piece(s.subrange(j + 1, end)) && encoded_word(
                    s.subrange(start + 2, end),
                ) is Some {
                    Some(end)
                } else {
                    first
                },
            },
        },
    }
}

/// A header from `pos` on, its encoded words decoded. White space between two
/// encoded words goes; `encoded` tells that one stands right before `pos`.
pub open spec fn mime_from(s: Seq<char>, pos: int, encoded: bool) -> Seq<char>
    decreases s.len() - pos,
    via mime_from_decreases
{
    if pos >= s.len() {
        seq![]
    } else {
        match find_text(s, "=?"@, pos) {
            None => s.skip(pos),
            Some(start) => {
                let kept = between_words(s, pos, start, encoded);
                match word_end(s, start) {
                    None => kept + "=?"@ + mime_from(s, start + 2, false),
                    Some(end) => {
                        let body = s.subrange(start + 2, end);
                        match encoded_word(body) {
                            Some(word) => kept + word + mime_from(s, end + 2, true),
                            None => kept + "=?"@ + body + "?="@ + mime_from(s, end + 2, false),
                        }
                    },
                }
            },
        }
    }
}

#[via_fn]
proof fn mime_from_decreases(s: Seq<char>, pos: int, encoded: bool) {
    reveal_strlit("=?");
    reveal_strlit("?=");
    lemma_find_text_bounds(s, "=?"@, pos);
    if let Some(start) = find_text(s, "=?"@, pos) {
        lemma_word_end_bounds(s, start);
    }
}

pub proof fn lemma_word_end_bounds(s: Seq<char>, start: int)
    ensures
        word_end(s, start) matches Some(end) ==> start + 2 <= end && end + 2 <= s.len(),
{
    reveal_strlit("?=");
    lemma_find_text_bounds(s, "?="@, start + 2);
    if let Some(i) = find_char(s, '?', start + 2) {
        lemma_find_char_bounds(s, '?', start + 2);
        if let Some(j) = find_char(s, '?', i + 1) {
            lemma_find_char_bounds(s, '?', i + 1);
            lemma_find_text_bounds(s, "?="@, j + 1);
        }
    }
}

/// A header with its encoded words decoded.
pub open spec fn mime_decoded(s: Seq<char>) -> Seq<char> {
    mime_from(s, 0, false)
}

/// Whether the characters `lo..hi` of `s` are all white space.
fn is_all_white(s: &Vec<char>, lo: usize, hi: usize) -> (r: bool)
    requires
        lo <= hi <= s.len(),
    ensures
        r == all_white(s@.subrange(lo as int, hi as int)),
{
    let ghost all = s@.subrange(lo as int, hi as int);
    let mut i = lo;
    while i < hi
        invariant
            lo <= i <= hi <= s.len(),
            all == s@.subrange(lo as int, hi as int),
            forall|j: int| 0 <= j < i - lo ==> is_white(#[trigger] all[j]),
        decreases hi - i,
    {
        if !is_whitespace(s[i]) {
            assert(!is_white(all[i - lo]));
            return false;
        }
        i += 1;
    }
    true
}

/// What a header holds between encoded words, at `pos..start`.
pub open spec fn between_words(s: Seq<char>, pos: int, start: int, encoded: bool) -> Seq<char> {
    if encoded && all_white(s.subrange(pos, start)) {
        seq![]
    } else {
        s.subrange(pos, start)
    }
}

/// Whether the characters `lo..hi` of `s` are one piece.
fn is_one_piece(s: &Vec<char>, lo: usize, hi: usize) -> (r: bool)
    requires
        lo <= hi <= s.len(),
    ensures
        r == one_piece(s@.subrange(lo as int, hi as int)),
{
    let ghost all = s@.subrange(lo as int, hi as int);
    let mut i = lo;
    while i < hi
        invariant
            lo <= i <= hi <= s.len(),
            all == s@.subrange(lo as int, hi as int),
            forall|j: int| 0 <= j < i - lo ==> #[trigger] all[j] != '?' && !is_white(all[j]),
        decreases hi - i,
    {
        if s[i] == '?' || is_whitespace(s[i]) {
            assert(all[i - lo] == s@[i as int]);
            return false;
        }
        i += 1;
    }
    true
}

/// Where the word that opens at `start` ends.
fn find_word_end(all: &Vec<char>, close: &Vec<char>, start: usize) -> (r: Option<usize>)
    requires
        close@ == "?="@,
        start + 2 <= all.len(),
    ensures
        position(r) == word_end(all@, start as int),
        r matches Some(end) ==> start + 2 <= end && end + 2 <= all.len(),
{
    proof {
        reveal_strlit("?=");
        lemma_word_end_bounds(all@, start as int);
    }
    if let Some(i) = find_mark(all, '?', start + 2) {
        if let Some(j) = find_mark(all, '?', i + 1) {
            if let Some(end) = find(all, close, j + 1) {
                if is_one_piece(all, j + 1, end) && decode_encoded_word(
                    &part(all, start + 2, end),
                ).is_some() {
                    return Some(end);
                }
            }
        }
    }
    find(all, close, start + 2)
}

/// Decodes the encoded word that opens at `start`, where there is one, and
/// tells where it ends and whether it was one.
fn push_word(out: &mut String, all: &Vec<char>, close: &Vec<char>, start: usize) -> (r: (
    usize,
    bool,
))
    requires
        close@ == "?="@,
        start + 2 <= all.len(),
    ensures
        start + 2 <= r.0 <= all.len(),
        match word_end(all@, start as int) {
            None => r == ((start + 2) as usize, false) && final(out)@ == old(out)@ + "=?"@,
            Some(end) => {
                let body = all@.subrange(start + 2, end);
                &&& r.0 == end + 2
                &&& match encoded_word(body) {
                    Some(word) => r.1 && final(out)@ == old(out)@ + word,
                    None => !r.1 && final(out)@ == old(out)@ + "=?"@ + body + "?="@,
                }
            },
        },
{
    match find_word_end(all, close, start) {
        None => {
            out.append("=?");
            (start + 2, false)
        },
        Some(end) => {
            let body = part(all, start + 2, end);
            match decode_encoded_word(&body) {
                Some(word) => {
                    out.append(word.as_str());
                    (end + 2, true)
                },
                None => {
                    out.append("=?");
                    push_range(out, all, start + 2, end);
                    out.append("?=");
                    (end + 2, false)
                },
            }
        },
    }
}

/// Decodes RFC 2047 encoded-words like `=?UTF-8?B?...?=`. Handles the `B`
/// (base64) and `Q` (quoted-printable) encodings. Charsets other than UTF-8
/// are decoded as if their byte stream were UTF-8.
pub fn decode_mime_header(s: &str) -> (r: String)
    ensures
        r@ == mime_decoded(s@),
{
    let all = chars_of(s);
    let open = chars_of("=?");
    let close = chars_of("?=");
    proof {
        reveal_strlit("=?");
    }
    let mut out = String::new();
    let mut pos: usize = 0;
    let mut encoded = false;
    assert(out@ + mime_from(all@, 0, false) =~= mime_decoded(s@));
    while pos < all.len()
        invariant
            pos <= all.len(),
            all@ == s@,
            open@ == "=?"@,
            close@ == "?="@,
            open@.len() == 2,
            out@ + mime_from(all@, pos as int, encoded) == mime_decoded(s@),
        decreases all.len() - pos,
    {
        let ghost before = out@;
        let ghost at = pos as int;
        let ghost was = encoded;
        match find(&all, &open, pos) {
            None => {
                push_range(&mut out, &all, pos, all.len());
                pos = all.len();
                proof {
                    assert(all@.subrange(at, all@.len() as int) =~= all@.skip(at));
                    assert(mime_from(all@, at, was) == all@.skip(at));
                    assert(mime_from(all@, pos as int, encoded) =~= seq![]);
                    assert(out@ + seq![] =~= before + all@.skip(at));
                }
            },
            Some(start) => {
                if !(encoded && is_all_white(&all, pos, start)) {
                    push_range(&mut out, &all, pos, start);
                }
                let ghost kept = between_words(all@, at, start as int, was);
                assert(out@ =~= before + kept);
                let (next, is_word) = push_word(&mut out, &all, &close, start);
                pos = next;
                encoded = is_word;
                proof {
                    lemma_mime_step(
                        all@,
                        at,
                        was,
                        start as int,
                        before,
                        kept,
                        out@,
                        next as int,
                        is_word,
                    );
                }
            },
        }
    }
    assert(out@ + mime_from(all@, pos as int, encoded) =~= out@);
    out
}

proof fn lemma_mime_step(
    s: Seq<char>,
    at: int,
    was: bool,
    start: int,
    before: Seq<char>,
    kept: Seq<char>,
    out: Seq<char>,
    next: int,
    is_word: bool,
)
    requires
        at < s.len(),
        find_text(s, "=?"@, at) == Some(start),
        kept == between_words(s, at, start, was),
        match word_end(s, start) {
            None => next == start + 2 && !is_word && out == before + kept + "=?"@,
            Some(end) => {
                let body = s.subrange(start + 2, end);
                &&& next == end + 2
                &&& match encoded_word(body) {
                    Some(word) => is_word && out == before + kept + word,
                    None => !is_word && out == before + kept + "=?"@ + body + "?="@,
                }
            },
        },
    ensures
        out + mime_from(s, next, is_word) == before + mime_from(s, at, was),
{
    let rest = mime_from(s, next, is_word);
    match word_end(s, start) {
        None => {
            assert(mime_from(s, at, was) == kept + "=?"@ + rest);
            assert(out + rest =~= before + (kept + "=?"@ + rest));
        },
        Some(end) => {
            let body = s.subrange(start + 2, end);
            match encoded_word(body) {
                Some(word) => {
                    assert(mime_from(s, at, was) == kept + word + rest);
                    assert(out + rest =~= before + (kept + word + rest));
                },
                None => {
                    assert(mime_from(s, at, was) == kept + "=?"@ + body + "?="@ + rest);
                    assert(out + rest =~= before + (kept + "=?"@ + body + "?="@ + rest));
                },
            }
        },
    }
}

/// A header without encoded words is kept as it is.
pub proof fn law_plain_headers_stay(s: Seq<char>)
    requires
        !contains_text(s, "=?"@),
    ensures
        mime_decoded(s) == s,
{
    lemma_find_text(s, "=?"@, 0);
    assert(s.skip(0) =~= s);
    if s.len() == 0 {
        assert(mime_decoded(s) =~= s);
    }
}

// ---------------------------------------------------------------------------
// Laws of encoded words
// ---------------------------------------------------------------------------

/// The character of the base64 alphabet with the value `v`.
pub open spec fn base64_char(v: int) -> char {
    "ABCDEFGHIJKLMNOPQRSTUVWXYZabcdefghijklmnopqrstuvwxyz0123456789+/"@[v]
}

/// The `i`-th of `bytes`, and zero behind them.
pub open spec fn byte_or_zero(bytes: Seq<u8>, i: int) -> int {
    if i < bytes.len() {
        bytes[i] as int
    } else {
        0
    }
}

/// The `k`-th group of six bits of `bytes`, laid end to end.
pub open spec fn six_bits(bytes: Seq<u8>, k: int) -> int {
    let q = k / 4 * 3;
    if k % 4 == 0 {
        byte_or_zero(bytes, q) / 4
    } else if k % 4 == 1 {
        byte_or_zero(bytes, q) % 4 * 16 + byte_or_zero(bytes, q + 1) / 16
    } else if k % 4 == 2 {
        byte_or_zero(bytes, q + 1) % 16 * 4 + byte_or_zero(bytes, q + 2) / 64
    } else {
        byte_or_zero(bytes, q + 2) % 64
    }
}

/// How many groups of six bits hold `n` bytes.
pub open spec fn groups_for(n: int) -> int {
    (8 * n + 5) / 6
}

/// The base64 form of `bytes`, without padding.
pub open spec fn base64_text(bytes: Seq<u8>) -> Seq<char> {
    Seq::new(groups_for(bytes.len() as int) as nat, |k: int| base64_char(six_bits(bytes, k)))
}

/// The characters of base64 data that count: all but ASCII white space.
pub open spec fn counts() -> spec_fn(char) -> bool {
    |c: char| !(c == '\t' || c == '\n' || c == '\u{c}' || c == '\r' || c == ' ')
}

/// `n` padding characters.
pub open spec fn padding(n: nat) -> Seq<char> {
    Seq::new(n, |k: int| '=')
}

/// The groups of six bits of `bytes`.
spec fn all_six_bits(bytes: Seq<u8>) -> Seq<u8> {
    Seq::new(groups_for(bytes.len() as int) as nat, |k: int| six_bits(bytes, k) as u8)
}

proof fn lemma_base64_char(v: int)
    requires
        0 <= v < 64,
    ensures
        '\0' <= base64_char(v) <= '\u{7f}',
        sextet(base64_char(v) as u8) == Some(v as u8),
        !is_ascii_space(base64_char(v) as u8),
        base64_char(v) != '=',
        base64_char(v) != '?',
        !is_white(base64_char(v)),
        base64_char(v) as u8 != 61,
{
    reveal_strlit("ABCDEFGHIJKLMNOPQRSTUVWXYZabcdefghijklmnopqrstuvwxyz0123456789+/");
}

proof fn lemma_six_bits_fit(bytes: Seq<u8>, k: int)
    ensures
        0 <= k ==> 0 <= six_bits(bytes, k) < 64,
{
}

/// Groups of six bits, packed, are the bytes again.
proof fn lemma_packed_again(bytes: Seq<u8>)
    ensures
        packed(all_six_bits(bytes)) == bytes,
{
    let d = all_six_bits(bytes);
    let n = bytes.len() as int;
    assert(packed_len(d.len() as int) == n);
    assert forall|k: int| 0 <= k < n implies packed_byte(d, k) == #[trigger] bytes[k] by {
        let q = k / 3;
        lemma_six_bits_fit(bytes, 4 * q);
        lemma_six_bits_fit(bytes, 4 * q + 1);
        lemma_six_bits_fit(bytes, 4 * q + 2);
        lemma_six_bits_fit(bytes, 4 * q + 3);
        assert((4 * q) / 4 * 3 == 3 * q);
        assert((4 * q + 1) / 4 * 3 == 3 * q);
        assert((4 * q + 2) / 4 * 3 == 3 * q);
        assert((4 * q + 3) / 4 * 3 == 3 * q);
        if k % 3 == 0 {
            assert(d[4 * q] == six_bits(bytes, 4 * q));
            assert(d[4 * q + 1] == six_bits(bytes, 4 * q + 1));
        } else if k % 3 == 1 {
            assert(d[4 * q + 1] == six_bits(bytes, 4 * q + 1));
            assert(d[4 * q + 2] == six_bits(bytes, 4 * q + 2));
        } else {
            assert(d[4 * q + 2] == six_bits(bytes, 4 * q + 2));
            assert(d[4 * q + 3] == six_bits(bytes, 4 * q + 3));
        }
    }
    assert(packed(d) =~= bytes);
}

/// What stands from `k` on is read as it is on its own.
proof fn lemma_sextets_from(b: Seq<u8>, k: int, i: int)
    requires
        0 <= k <= b.len(),
        0 <= i,
    ensures
        sextets(b, k + i) == sextets(b.skip(k), i),
    decreases b.len() - i,
{
    if k + i < b.len() {
        lemma_sextets_from(b, k, i + 1);
    }
}

/// The characters of groups of six bits, with white space anywhere and padding
/// at the end, are read as those groups.
proof fn lemma_sextets_read(e: Seq<char>, d: Seq<u8>, pad: nat)
    requires
        forall|i: int| 0 <= i < d.len() ==> #[trigger] d[i] < 64,
        e.filter(counts()) == Seq::new(d.len(), |k: int| base64_char(d[k] as int)) + padding(pad),
    ensures
        sextets(encode_utf8(e), 0) == Some(d),
    decreases e.len(),
{
    let b = encode_utf8(e);
    let text = Seq::new(d.len(), |k: int| base64_char(d[k] as int)) + padding(pad);
    if e.len() == 0 {
        reveal(Seq::filter);
        assert(text.len() == 0);
        assert(d =~= seq![]);
    } else {
        let head = e.take(1);
        let rest = e.skip(1);
        assert(e =~= head + rest);
        Seq::filter_distributes_over_add(head, rest, counts());
        assert(head.filter(counts()) =~= if counts()(e[0]) {
            seq![e[0]]
        } else {
            seq![]
        }) by {
            reveal(Seq::filter);
            assert(head.drop_last() =~= seq![]);
            assert(head.drop_last().filter(counts()) =~= seq![]);
        }
        if !counts()(e[0]) {
            assert(e.filter(counts()) =~= rest.filter(counts()));
            lemma_encode_ascii_head(e, 1);
            lemma_sextets_read(rest, d, pad);
            lemma_sextets_from(b, 1, 0);
            assert(b[0] == e[0] as u8);
        } else {
            assert(text[0] == e[0]);
            if d.len() == 0 {
                assert(e[0] == '=');
                lemma_encode_ascii_head(e, 1);
                assert(b[0] == 61);
                assert(d =~= seq![]);
            } else {
                lemma_base64_char(d[0] as int);
                lemma_encode_ascii_head(e, 1);
                let tail = d.skip(1);
                assert(rest.filter(counts()) =~= text.skip(1));
                assert(text.skip(1) =~= Seq::new(tail.len(), |k: int| base64_char(tail[k] as int))
                    + padding(pad));
                lemma_sextets_read(rest, tail, pad);
                lemma_sextets_from(b, 1, 0);
                assert(b[0] == e[0] as u8);
                assert(seq![d[0]] + tail =~= d);
            }
        }
    }
}

/// Bytes in base64 read back, with white space anywhere in the text and with
/// padding or without.
pub proof fn law_base64_reads_back(e: Seq<char>, bytes: Seq<u8>, pad: nat)
    requires
        e.filter(counts()) == base64_text(bytes) + padding(pad),
    ensures
        base64_bytes(encode_utf8(e)) == Some(bytes),
{
    let d = all_six_bits(bytes);
    assert forall|i: int| 0 <= i < d.len() implies #[trigger] d[i] < 64 by {
        lemma_six_bits_fit(bytes, i);
    }
    assert(base64_text(bytes) =~= Seq::new(d.len(), |k: int| base64_char(d[k] as int))) by {
        assert forall|k: int| 0 <= k < d.len() implies base64_text(bytes)[k] == base64_char(
            d[k] as int,
        ) by {
            lemma_six_bits_fit(bytes, k);
        }
    }
    lemma_sextets_read(e, d, pad);
    lemma_packed_again(bytes);
}

/// An encoded word as it stands in a header.
pub open spec fn word_text(charset: Seq<char>, encoding: char, text: Seq<char>) -> Seq<char> {
    "=?"@ + charset + seq!['?', encoding, '?'] + text + "?="@
}

/// A header that is one encoded word decodes to the text of the word's bytes.
/// The text of the word may begin with `=`, unless white space stands in it.
pub proof fn law_encoded_word_is_decoded(
    charset: Seq<char>,
    encoding: char,
    text: Seq<char>,
    bytes: Seq<u8>,
)
    requires
        !charset.contains('?'),
        !text.contains('?'),
        text.len() > 0 && text[0] == '=' ==> one_piece(text),
        word_bytes(seq![encoding], text) == Some(bytes),
    ensures
        mime_decoded(word_text(charset, encoding, text)) == utf8_text(bytes),
{
    reveal_strlit("=?");
    reveal_strlit("?=");
    let s = word_text(charset, encoding, text);
    let i: int = 2 + charset.len() as int;
    let j: int = i + 2;
    let end: int = j + 1 + text.len() as int;
    assert(encoding != '?' && encoding != '=') by {
        assert(seq![encoding][0] == encoding);
        assert(seq!['B'][0] == 'B' && seq!['b'][0] == 'b');
        assert(seq!['Q'][0] == 'Q' && seq!['q'][0] == 'q');
    }
    assert(s.len() == end + 2);
    assert(s.subrange(0, 2) =~= "=?"@);
    assert forall|k: int| 0 <= k < charset.len() implies charset[k] != '?' by {
        assert(charset.contains(charset[k]));
    }
    assert forall|k: int| 0 <= k < text.len() implies text[k] != '?' by {
        assert(text.contains(text[k]));
    }
    assert forall|k: int| 2 <= k < i implies s[k] != '?' by {
        assert(s[k] == charset[k - 2]);
    }
    assert(s[i] == '?' && s[i + 1] == encoding && s[j] == '?');
    assert forall|k: int| j + 1 <= k < end implies s[k] != '?' by {
        assert(s[k] == text[k - j - 1]);
    }
    lemma_find_char(s, '?', 2);
    assert(find_char(s, '?', 2) == Some(i));
    lemma_find_char(s, '?', i + 1);
    assert(find_char(s, '?', i + 1) == Some(j));
    lemma_find_text(s, "?="@, j + 1);
    assert(s.subrange(end, end + 2) =~= "?="@);
    assert(find_text(s, "?="@, j + 1) == Some(end)) by {
        assert(occurs_at(s, "?="@, end));
        let found = find_text(s, "?="@, j + 1)->0;
        if found < end {
            assert(s.subrange(found, found + 2)[0] == s[found]);
        }
    }
    let body = s.subrange(2, end);
    assert(encoded_word(body) == Some(utf8_text(bytes))) by {
        assert forall|k: int| 0 <= k < charset.len() implies body[k] != '?' by {
            assert(body[k] == s[k + 2]);
        }
        assert(body[i - 2] == '?' && body[i - 1] == encoding && body[j - 2] == '?');
        lemma_find_char(body, '?', 0);
        assert(find_char(body, '?', 0) == Some(i - 2));
        lemma_find_char(body, '?', i - 1);
        assert(find_char(body, '?', i - 1) == Some(j - 2));
        assert(body.subrange(i - 1, j - 2) =~= seq![encoding]);
        assert(body.skip(j - 1) =~= text);
    }
    assert(word_end(s, 0) == Some(end)) by {
        assert(s.subrange(j + 1, end) =~= text);
        if !one_piece(text) {
            lemma_find_text(s, "?="@, 2);
            assert(occurs_at(s, "?="@, end));
            let found = find_text(s, "?="@, 2)->0;
            if found < end {
                assert(s.subrange(found, found + 2)[0] == s[found]);
                assert(s.subrange(found, found + 2)[1] == s[found + 1]);
                assert(found == i || found == j);
                assert(s[j + 1] == text[0]);
            }
        }
    }
    assert(occurs_at(s, "=?"@, 0));
    assert(find_text(s, "=?"@, 0) == Some(0int));
    assert(between_words(s, 0, 0, false) =~= seq![]);
    assert(mime_from(s, end + 2, true) =~= seq![]);
    assert(mime_decoded(s) =~= utf8_text(bytes));
}

/// What stands from `k` on decodes as it does on its own.
pub proof fn lemma_q_bytes_from(b: Seq<u8>, k: int, i: int)
    requires
        0 <= k <= b.len(),
        0 <= i,
    ensures
        q_bytes(b, k + i) == q_bytes(b.skip(k), i),
    decreases b.len() - i,
{
    if k + i < b.len() {
        lemma_q_bytes_from(b, k, i + 1);
        if k + i + 3 <= b.len() {
            lemma_q_bytes_from(b, k, i + 3);
        }
        assert(escaped(b.skip(k), i) == escaped(b, k + i));
    }
}

proof fn lemma_q_escapes(bytes: Seq<u8>)
    ensures
        q_bytes(encode_utf8(escapes(bytes)), 0) == bytes,
        one_piece(escapes(bytes)),
    decreases bytes.len(),
{
    let e = escapes(bytes);
    if bytes.len() == 0 {
        assert(q_bytes(encode_utf8(e), 0) =~= bytes);
    } else {
        let high = bytes[0] as int / 16;
        let low = bytes[0] as int % 16;
        let rest = escapes(bytes.skip(1));
        assert(e == escape_of(bytes[0]) + rest);
        lemma_q_escapes(bytes.skip(1));
        let head = escape_of(bytes[0]);
        lemma_escape_digits(bytes[0]);
        assert(e[0] == head[0] && e[1] == head[1] && e[2] == head[2]);
        lemma_hex_of_digit(e[1], high);
        lemma_hex_of_digit(e[2], low);
        lemma_encode_ascii_head(e, 3);
        let b = encode_utf8(e);
        assert(e.skip(3) =~= rest);
        assert(b[0] == 61 && b[1] == e[1] as u8 && b[2] == e[2] as u8);
        lemma_q_bytes_from(b, 3, 0);
        assert(escaped(b, 0) == Some(bytes[0]));
        assert(seq![bytes[0]] + bytes.skip(1) =~= bytes);
        assert forall|k: int| 0 <= k < e.len() implies #[trigger] e[k] != '?' && !is_white(
            e[k],
        ) by {
            if k >= 3 {
                assert(e[k] == rest[k - 3]);
            }
        }
    }
}

/// A text reads back out of an encoded word, in either encoding.
pub proof fn law_encoded_text_reads_back(charset: Seq<char>, text: Seq<char>)
    requires
        !charset.contains('?'),
    ensures
        mime_decoded(word_text(charset, 'B', base64_text(encode_utf8(text)))) == text,
        mime_decoded(word_text(charset, 'Q', escapes(encode_utf8(text)))) == text,
{
    let bytes = encode_utf8(text);
    encode_utf8_valid_utf8(text);
    encode_utf8_decode_utf8(text);
    let plain = base64_text(bytes);
    assert(one_piece(plain) && plain.filter(counts()) == plain) by {
        assert forall|k: int| 0 <= k < plain.len() implies #[trigger] plain[k] != '?' && !is_white(
            plain[k],
        ) && counts()(plain[k]) by {
            lemma_six_bits_fit(bytes, k);
            lemma_base64_char(six_bits(bytes, k));
        }
        lemma_all_kept(plain, counts());
    }
    assert(plain + padding(0) =~= plain);
    law_base64_reads_back(plain, bytes, 0);
    assert(seq!['B'][0] == 'B' && seq!['Q'][0] == 'Q' && seq!['b'][0] == 'b');
    law_encoded_word_is_decoded(charset, 'B', plain, bytes);
    lemma_q_escapes(bytes);
    law_encoded_word_is_decoded(charset, 'Q', escapes(bytes), bytes);
}

/// A filter that holds of every character keeps the text.
proof fn lemma_all_kept(s: Seq<char>, p: spec_fn(char) -> bool)
    requires
        forall|k: int| 0 <= k < s.len() ==> p(#[trigger] s[k]),
    ensures
        s.filter(p) == s,
    decreases s.len(),
{
    reveal(Seq::filter);
    if s.len() > 0 {
        lemma_all_kept(s.drop_last(), p);
        assert(s.drop_last().push(s.last()) =~= s);
    }
}

// ---------------------------------------------------------------------------
// Mails
// ---------------------------------------------------------------------------

/// The name to show for a `From` field: what stands before the address, without
/// quotes; the address, where there is no name; else the field as it is.
pub open spec fn pretty(from: Seq<char>) -> Seq<char> {
    match find_char(from, '<', 0) {
        None => trim(from),
        Some(start) => {
            let name = trim_mark(trim(from.take(start)), '"');
            if name.len() > 0 {
                name
            } else {
                match find_char(from, '>', start) {
                    Some(end) => from.subrange(start + 1, end),
                    None => trim(from),
                }
            }
        },
    }
}

/// The name to show for a `From` field.
pub fn pretty_from(from: &str) -> (r: String)
    ensures
        r@ == pretty(from@),
{
    let all = chars_of(from);
    if let Some(start) = find_mark(&all, '<', 0) {
        let head = part(&all, 0, start);
        assert(head@ =~= from@.take(start as int));
        let name = trimmed_of(&trimmed(&head), '"');
        if name.len() > 0 {
            return string_of(&name);
        }
        if let Some(end) = find_mark(&all, '>', start) {
            proof {
                lemma_find_char(from@, '>', start as int);
                lemma_find_char(from@, '<', 0);
            }
            return string_of(&part(&all, start + 1, end));
        }
    }
    string_of(&trimmed(&all))
}

/// A stamp, from the numbers that it is made of.
pub open spec fn stamp_of(r: Option<(i64, u32, i32)>) -> Option<Stamp> {
    match r {
        Some(d) => Some(Stamp { moment: Moment { secs: d.0, nanos: d.1 }, offset: d.2 }),
        None => None,
    }
}

/// A stamp, from the numbers that it is made of.
pub fn make_stamp(r: Option<(i64, u32, i32)>) -> (s: Option<Stamp>)
    ensures
        s == stamp_of(r),
{
    match r {
        Some(d) => Some(Stamp { moment: Moment { secs: d.0, nanos: d.1 }, offset: d.2 }),
        None => None,
    }
}

/// The date that a `Date` field gives: as RFC 2822 has it, or else as RFC 3339
/// does.
pub open spec fn rfc_date(s: Seq<char>) -> Option<Stamp> {
    if s.len() == 0 {
        None
    } else if rfc2822_stamp(s) is Some {
        stamp_of(rfc2822_stamp(s))
    } else {
        stamp_of(rfc3339_stamp(s))
    }
}

/// Reads a `Date` field.
pub fn parse_rfc_date(s: &str) -> (r: Option<Stamp>)
    ensures
        r == rfc_date(s@),
{
    if s.is_empty() {
        return None;
    }
    match parse_rfc2822(s) {
        Some(d) => make_stamp(Some(d)),
        None => make_stamp(parse_rfc3339(s)),
    }
}

/// A field of a header with its encoded words decoded; nothing where the
/// header does not have it.
pub open spec fn decoded_field(headers: Seq<char>, name: Seq<char>) -> Seq<char> {
    match header_field(headers, name) {
        Some(v) => mime_decoded(v),
        None => seq![],
    }
}

/// A field of a header with its encoded words decoded.
fn decode_field(headers: &str, name: &str) -> (r: String)
    ensures
        r@ == decoded_field(headers@, name@),
{
    match extract_header(headers, name) {
        Some(v) => decode_mime_header(v.as_str()),
        None => String::new(),
    }
}

/// `mail` is what the lists show of a raw mail: its subject and its sender
/// with their encoded words decoded, and its date.
pub open spec fn listed_as(raw: Seq<char>, mail: Mail) -> bool {
    let headers = header_block(raw);
    &&& mail.title@ == decoded_field(headers, "Subject"@)
    &&& mail.author@ == pretty(decoded_field(headers, "From"@))
    &&& mail.date == match header_field(headers, "Date"@) {
        Some(v) => rfc_date(v),
        None => None,
    }
}

/// Reads what the lists show of a mail from the raw mail.
pub fn parse_mail_from_raw(raw: &str, epoch: u32, commit: String) -> (r: Mail)
    ensures
        listed_as(raw@, r),
        r.title@ == decoded_field(header_block(raw@), "Subject"@),
        r.author@ == pretty(decoded_field(header_block(raw@), "From"@)),
        r.date == match header_field(header_block(raw@), "Date"@) {
            Some(v) => rfc_date(v),
            None => None,
        },
        r.epoch == epoch,
        r.commit == commit,
{
    let all = chars_of(raw);
    let (end, _) = split_header(&all);
    let headers = string_of(&part(&all, 0, end));
    assert(headers@ =~= header_block(raw@));
    let title = decode_field(headers.as_str(), "Subject");
    let from = decode_field(headers.as_str(), "From");
    let author = pretty_from(from.as_str());
    let date = match extract_header(headers.as_str(), "Date") {
        Some(v) => parse_rfc_date(v.as_str()),
        None => None,
    };
    Mail { title, author, date, epoch, commit }
}

} // verus!
