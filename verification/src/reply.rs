//! Sending a reply: put the draft in the user's editor, then hand the file to
//! `git send-email`. No account credentials live here; git has them.

use vstd::prelude::*;

use crate::text::{decimal, push_decimal, texts};

verus! {

/// The editor: `$EDITOR`, else `$VISUAL`, else `vi`.
pub fn choose_editor(editor: Option<String>, visual: Option<String>) -> (r: String)
    ensures
        r@ == match (editor, visual) {
            (Some(e), _) => e@,
            (None, Some(v)) => v@,
            (None, None) => "vi"@,
        },
{
    match (editor, visual) {
        (Some(e), _) => e,
        (None, Some(v)) => v,
        (None, None) => "vi".to_string(),
    }
}

/// The name of the file that holds the draft, for the process `pid`.
pub fn draft_file(pid: u32) -> (r: String)
    ensures
        r@ == "lkml-reply-"@ + decimal(pid as nat) + ".mbox"@,
{
    let mut out = "lkml-reply-".to_string();
    push_decimal(&mut out, pid as u64);
    out.append(".mbox");
    out
}

/// What came of editing the draft; `status` tells how the editor ended.
pub fn edit_outcome(editor: &str, success: bool, status: &str) -> (r: Result<(), String>)
    ensures
        match r {
            Ok(()) => success,
            Err(e) => !success && e@ == editor@ + " exited with "@ + status@
                + ", reply discarded"@,
        },
{
    if success {
        return Ok(());
    }
    let mut out = editor.to_string();
    out.append(" exited with ");
    out.append(status);
    out.append(", reply discarded");
    Err(out)
}

/// The arguments with which git sends the draft.
pub fn send_args(path: &str) -> (r: Vec<String>)
    ensures
        texts(r@) == seq!["send-email"@, "--confirm=always"@, path@],
{
    let r = vec!["send-email".to_string(), "--confirm=always".to_string(), path.to_string()];
    assert(texts(r@) =~= seq!["send-email"@, "--confirm=always"@, path@]);
    r
}

/// What came of sending the draft.
pub fn send_outcome(success: bool) -> (r: Result<(), String>)
    ensures
        match r {
            Ok(()) => success,
            Err(e) => !success && e@ == "git send-email failed"@,
        },
{
    if success {
        Ok(())
    } else {
        Err("git send-email failed".to_string())
    }
}

} // verus!
