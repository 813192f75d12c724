use lkml_reader::archive::{
    archive_root, clone_mirror, cloned_epochs, commit_lines, decode_base64, decode_mime_header,
    decode_q, epoch_of_name, git_answer, join_path, list_all_commits, local_repo_path, log_args, manifest_epochs,
    manifest_failure, manifest_url, parse_mail_from_raw, parse_rfc_date, pretty_from, repo_url,
    show_args, show_mail, unpack_manifest, update_mirror, ManifestError,
};
use std::io::Write;

#[test]
fn mirrors_live_under_the_cache_directory() {
    let root = archive_root(Some("/c".to_string()), Some("/home/u".to_string()));
    assert_eq!(root, "/c/lkml-reader/archives");
    assert_eq!(
        archive_root(None, Some("/home/u".to_string())),
        "/home/u/.cache/lkml-reader/archives"
    );
    assert_eq!(archive_root(None, None), "/tmp/lkml-reader/archives");
    assert_eq!(
        local_repo_path(&root, "linux-mm", 3),
        "/c/lkml-reader/archives/linux-mm/3.git"
    );
}

#[test]
fn paths_are_joined_as_std_joins_them() {
    for base in ["", "/", "a", "a/", "/a/b"] {
        for rel in ["", "x", "x/y", "/x"] {
            let std = std::path::PathBuf::from(base).join(rel);
            assert_eq!(join_path(base, rel), std.to_str().unwrap());
        }
    }
}

#[test]
fn every_epoch_has_a_mirror_of_its_own() {
    let paths: Vec<String> = (0..200).map(|n| local_repo_path("/c", "lkml", n)).collect();
    let urls: Vec<String> = (0..200).map(|n| repo_url("lkml", n)).collect();
    for i in 0..200 {
        for j in 0..i {
            assert_ne!(paths[i], paths[j]);
            assert_ne!(urls[i], urls[j]);
        }
    }
}

#[test]
fn addresses() {
    assert_eq!(manifest_url(), "https://lore.kernel.org/manifest.js.gz");
    assert_eq!(
        repo_url("lkml", 19),
        "https://lore.kernel.org/lkml/git/19.git"
    );
}

fn gzip(bytes: &[u8]) -> Vec<u8> {
    let mut encoder = flate2::write::GzEncoder::new(Vec::new(), flate2::Compression::default());
    encoder.write_all(bytes).unwrap();
    encoder.finish().unwrap()
}

#[test]
fn the_catalog_is_unpacked() {
    let packed = gzip("{\"/lkml/git/0.git\": {}}".as_bytes());
    assert_eq!(
        unpack_manifest(200, &packed),
        Ok("{\"/lkml/git/0.git\": {}}".to_string())
    );
    assert_eq!(unpack_manifest(204, &gzip(b"")), Ok(String::new()));
    assert_eq!(unpack_manifest(404, &packed), Err(ManifestError::Status(404)));
    assert_eq!(unpack_manifest(300, &packed), Err(ManifestError::Status(300)));
    assert_eq!(unpack_manifest(199, &packed), Err(ManifestError::Status(199)));
    assert_eq!(unpack_manifest(200, b"no gzip"), Err(ManifestError::Unpacking));
    assert_eq!(unpack_manifest(200, &gzip(&[0xff, 0xfe])), Err(ManifestError::Unpacking));
}

#[test]
fn catalog_failures_are_told() {
    assert_eq!(
        manifest_failure(ManifestError::Status(404), "404 Not Found", "https://x/m"),
        "manifest fetch failed (404 Not Found): https://x/m"
    );
    assert_eq!(
        manifest_failure(ManifestError::Unpacking, "", "https://x/m"),
        "decompressing manifest"
    );
}

#[test]
fn epochs_of_a_list_are_read_from_the_catalog() {
    let json = "{ \"/lkml/git/10.git\": {}, \"/lkml/git/2.git\": {}, \"/lkml/git/2.git\": {},
        \"/lkml-x/git/7.git\": {}, \"/lkml/git/.git\": {}, \"/lkml/git/4294967296.git\": {},
        \"/lkml/git/4294967295.git\": {}, \"/lkml/git/007.git\": {} }";
    assert_eq!(manifest_epochs(json, "lkml"), [2, 7, 10, 4294967295]);
    assert_eq!(manifest_epochs(json, "lkml-x"), [7]);
    assert!(manifest_epochs(json, "none").is_empty());
    assert!(manifest_epochs("", "lkml").is_empty());
    assert_eq!(manifest_epochs("\"/l/git/5", "l"), [5]);
}

#[test]
fn git_is_asked_for_the_mirror() {
    assert_eq!(
        update_mirror("/d", true).unwrap(),
        ["--git-dir=/d", "remote", "update"]
    );
    assert_eq!(update_mirror("/d", false).unwrap_err(), "mirror not present: /d");
    assert_eq!(
        clone_mirror("lkml", 1, "/d", false).unwrap(),
        ["clone", "--mirror", "https://lore.kernel.org/lkml/git/1.git", "/d"]
    );
    assert_eq!(
        clone_mirror("lkml", 1, "/d", true).unwrap_err(),
        "mirror already exists: /d"
    );
    assert_eq!(log_args("/d"), ["--git-dir=/d", "log", "--pretty=format:%H"]);
    assert_eq!(show_args("/d", "abc"), ["--git-dir=/d", "show", "abc:m"]);
}

#[test]
fn git_answers_are_read() {
    assert_eq!(
        list_all_commits(true, b"aa\n\nbb\r\ncc", b"").unwrap(),
        ["aa", "bb", "cc"]
    );
    assert_eq!(
        list_all_commits(false, b"aa", b"fatal: \xff").unwrap_err(),
        "git log failed: fatal: \u{fffd}"
    );
    assert_eq!(show_mail(true, "From: é".as_bytes(), b"").unwrap(), "From: é");
    assert_eq!(show_mail(false, b"", b"bad").unwrap_err(), "git show failed: bad");
    assert_eq!(
        git_answer("git remote update", false, b"", b"x").unwrap_err(),
        "git remote update failed: x"
    );
    assert!(commit_lines("\n\n").is_empty());
}

#[test]
fn base64_reads_groups_of_six_bits() {
    assert_eq!(decode_base64("SGVsbG8=").unwrap(), b"Hello");
    assert_eq!(decode_base64("SGVs bG8").unwrap(), b"Hello");
    assert_eq!(decode_base64("+/+/").unwrap(), [0xfb, 0xff, 0xbf]);
    assert_eq!(decode_base64("QQ").unwrap(), b"A");
    assert_eq!(decode_base64("Q").unwrap(), b"");
    assert_eq!(decode_base64("").unwrap(), b"");
    assert_eq!(decode_base64("QQ==ignored!").unwrap(), b"A");
    assert!(decode_base64("Q!").is_none());
    assert!(decode_base64("é").is_none());
}

#[test]
fn q_words_keep_what_is_no_escape() {
    assert_eq!(decode_q("a_b=C3=a9"), "a bé".as_bytes());
    assert_eq!(decode_q("x=4"), b"x=4");
    assert_eq!(decode_q("=zz=3D"), b"=zz=");
}

#[test]
fn encoded_words_are_decoded() {
    assert_eq!(decode_mime_header("=?UTF-8?B?SsO2cmc=?= <j@x>"), "Jörg <j@x>");
    assert_eq!(decode_mime_header("=?utf-8?q?J=C3=B6rg_X?="), "Jörg X");
    // White space between two encoded words goes, other white space stays.
    assert_eq!(decode_mime_header("=?u?q?a?= \t=?u?q?b?= c =?u?q?d?="), "ab c d");
    assert_eq!(decode_mime_header("x =?u?q?a?="), "x a");
}

#[test]
fn what_is_no_encoded_word_stays() {
    assert_eq!(decode_mime_header("plain é"), "plain é");
    assert_eq!(decode_mime_header(""), "");
    assert_eq!(decode_mime_header("a =?u?x?b?= c"), "a =?u?x?b?= c");
    assert_eq!(decode_mime_header("=?u?b?!?="), "=?u?b?!?=");
    assert_eq!(decode_mime_header("=?no end"), "=?no end");
    assert_eq!(decode_mime_header("=?u?= =?u?q?a?="), "=?u?= a");
    assert_eq!(decode_mime_header("=?x?q?a=ff?="), "a\u{fffd}");
}

#[test]
fn the_text_of_a_word_may_begin_with_an_escape() {
    assert_eq!(decode_mime_header("=?UTF-8?Q?=C3=A9?="), "é");
    assert_eq!(decode_mime_header("=?utf-8?q?=C3=89mile_X?= <e@x>"), "Émile X <e@x>");
    assert_eq!(decode_mime_header("=?u?q?=41?= =?u?q?=42?="), "AB");
    assert_eq!(decode_mime_header("=?x?q?=ff?="), "\u{fffd}");
    assert_eq!(decode_mime_header("=?u?q??="), "");
    assert_eq!(decode_mime_header("=?u?q?=?="), "=");
    // A text with white space in it is not sought past the first end.
    assert_eq!(decode_mime_header("=?u?B?= =?u?B?SGk=?="), "=?u?B?= Hi");
    assert_eq!(decode_mime_header("=?u?q?=41 b?="), "=?u?q?=41 b?=");
    assert_eq!(decode_mime_header("=?u?q?a b?="), "a b");
    // Not closed behind the encoding, so it is no encoded word.
    assert_eq!(decode_mime_header("=?u?q?=41"), "=?u?q?=41");
    assert_eq!(decode_mime_header("=?u?x?=41?= y"), "=?u?x?=41?= y");
}

#[test]
fn a_text_reads_back_out_of_an_encoded_word() {
    for text in ["é", "Jörg", "", "a?b", "日本 x"] {
        let escaped: String = text.bytes().map(|b| format!("={b:02X}")).collect();
        assert_eq!(decode_mime_header(&format!("=?UTF-8?Q?{escaped}?=")), text);
        let coded = base64(text.as_bytes());
        assert_eq!(decode_mime_header(&format!("=?UTF-8?B?{coded}?=")), text);
    }
}

/// The base64 form of bytes, without padding.
fn base64(bytes: &[u8]) -> String {
    let alphabet: Vec<char> = "ABCDEFGHIJKLMNOPQRSTUVWXYZabcdefghijklmnopqrstuvwxyz0123456789+/"
        .chars()
        .collect();
    let mut bits: Vec<u8> = Vec::new();
    for b in bytes {
        for k in (0..8).rev() {
            bits.push(b >> k & 1);
        }
    }
    while bits.len() % 6 != 0 {
        bits.push(0);
    }
    bits.chunks(6)
        .map(|six| alphabet[six.iter().fold(0usize, |v, b| v * 2 + *b as usize)])
        .collect()
}

#[test]
fn bytes_in_base64_read_back() {
    let all: Vec<u8> = (0..=255).collect();
    for len in 0..=all.len() {
        let coded = base64(&all[..len]);
        assert_eq!(decode_base64(&coded).unwrap(), all[..len]);
        let padded = format!("{coded}{}", "=".repeat((3 - len % 3) % 3));
        assert_eq!(decode_base64(&padded).unwrap(), all[..len]);
        let wrapped: String = padded.chars().flat_map(|c| [c, '\n', ' ']).collect();
        assert_eq!(decode_base64(&wrapped).unwrap(), all[..len]);
    }
}

#[test]
fn cloned_epochs_are_read_off_the_names() {
    let names: Vec<String> = ["10.git", "2.git", "x.git", ".git", "3", "07.git", "2.git", "+4.git",
        "4294967295.git", "4294967296.git", "5.gitx"]
        .iter()
        .map(|n| n.to_string())
        .collect();
    assert_eq!(cloned_epochs(&names), [2, 10, 4294967295]);
    assert_eq!(epoch_of_name("0.git"), Some(0));
    assert_eq!(epoch_of_name("0.gi"), None);
    assert!(cloned_epochs(&Vec::new()).is_empty());
}

#[test]
fn the_name_before_the_address_is_shown() {
    assert_eq!(pretty_from("\"Doe, J\" <j@x>"), "Doe, J");
    assert_eq!(pretty_from("  J Doe <j@x>"), "J Doe");
    assert_eq!(pretty_from("<j@x>"), "j@x");
    assert_eq!(pretty_from("\"\" <j@x>"), "j@x");
    assert_eq!(pretty_from(" j@x "), "j@x");
    assert_eq!(pretty_from("<j@x"), "<j@x");
}

#[test]
fn dates_are_read_in_two_forms() {
    let d = parse_rfc_date("Tue, 1 Jul 2003 10:52:37 +0200").unwrap();
    assert_eq!((d.moment.secs, d.moment.nanos, d.offset), (1057049557, 0, 7200));
    let d = parse_rfc_date("1996-12-19T16:39:57.5-08:00").unwrap();
    assert_eq!((d.moment.secs, d.moment.nanos, d.offset), (851042397, 500000000, -28800));
    assert!(parse_rfc_date("").is_none());
    assert!(parse_rfc_date("last week").is_none());
}

#[test]
fn a_raw_mail_becomes_a_row() {
    let raw = "From: \"J D\" <j@x>\r\nSubject: =?UTF-8?Q?a=3Db?=\r\n c\r\nDate: Tue, 1 Jul 2003 10:52:37 +0200\r\n\r\nSubject: body\r\n";
    let mail = parse_mail_from_raw(raw, 4, "abc".to_string());
    assert_eq!(mail.title, "a=b c");
    assert_eq!(mail.author, "J D");
    assert_eq!(mail.date_str(), "2003/07/01 10:52");
    assert_eq!((mail.epoch, mail.commit.as_str()), (4, "abc"));
    let bare = parse_mail_from_raw("", 0, String::new());
    assert_eq!((bare.title.as_str(), bare.author.as_str()), ("", ""));
    assert!(bare.date.is_none());
    assert_eq!(bare.date_str(), "-");
}
